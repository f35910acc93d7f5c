use sha2::Digest;
use valence::cli::{
    circuit_directory, find_member_manifest, manifest_package, package_directory, path_suffix,
    stored_proof, workspace_layout, App, CliError, WorkspaceMember,
};
use valence::groth16::{proof_points, public_values_digest};
use valence::host::{check_read, check_write, panic_fits, panic_message, read_string, ReturnCodes};
use valence::ids::{request_ids, try_str_to_hash, HashParseError};
use valence::runtime::{
    __value_to_context_log, get_controller, get_historical_payload, get_raw_storage,
    get_storage_file, historical_payload_from, initialize_default_runtime, initialize_runtime,
    set_raw_storage, Runtime, BUF_LEN,
};
use valence::runtime::{args, host_read_json, host_ret, ret};
use valence::service::{Ack, Config, Mode};

const ALL_CODES: [ReturnCodes; 16] = [
    ReturnCodes::Success,
    ReturnCodes::MemoryExport,
    ReturnCodes::MemoryCapacity,
    ReturnCodes::MemoryWrite,
    ReturnCodes::MemoryRead,
    ReturnCodes::ReturnBytes,
    ReturnCodes::BufferTooLarge,
    ReturnCodes::ControllerRawStorage,
    ReturnCodes::StringUtf8,
    ReturnCodes::DomainProof,
    ReturnCodes::Serialization,
    ReturnCodes::JsonValue,
    ReturnCodes::StateProof,
    ReturnCodes::Http,
    ReturnCodes::LatestBlock,
    ReturnCodes::ControllerStorage,
];

#[test]
fn return_codes_count_down_from_zero() {
    for (i, c) in ALL_CODES.iter().enumerate() {
        assert_eq!(c.code(), -(i as i32));
        assert_eq!(ReturnCodes::from_code(c.code()), Some(*c));
    }
    assert_eq!(ReturnCodes::BufferTooLarge.code(), -6);
    assert_eq!(ReturnCodes::from_code(1), None);
    assert_eq!(ReturnCodes::from_code(-16), None);
}

#[test]
fn memory_bounds_are_checked() {
    assert_eq!(check_read(100, 90, 10), Ok(()));
    assert_eq!(check_read(100, 90, 11), Err(ReturnCodes::BufferTooLarge));
    assert_eq!(check_read(100, 200, 0), Ok(()));
    assert_eq!(check_read(100, 200, 1), Err(ReturnCodes::BufferTooLarge));
    assert_eq!(check_write(100, 0, 100), Ok(100));
    assert_eq!(check_write(100, 1, 100), Err(ReturnCodes::MemoryCapacity));
    assert!(panic_fits(1, 65536, 65536));
    assert!(!panic_fits(1, 65536, 65537));
    assert!(!panic_fits(0, 65536, 1));
}

#[test]
fn panic_messages_fall_back_when_unreadable() {
    assert_eq!(panic_message(Some(b"out of gas".to_vec())), "out of gas");
    assert_eq!(panic_message(Some(vec![0xc3])), "undefined panic");
    assert_eq!(panic_message(None), "undefined panic");
    assert_eq!(read_string(b"/var/share/foo.bin".to_vec()).unwrap(), "/var/share/foo.bin");
    assert_eq!(read_string(vec![0x80]).unwrap_err(), ReturnCodes::StringUtf8);
}

#[test]
fn runtime_reads_back_what_it_stores() {
    let mut rt = Runtime::default();
    assert!(rt.raw_storage.is_empty());
    assert_eq!(get_controller(&rt).unwrap(), [0u8; 32]);
    set_raw_storage(&mut rt, b"raw").unwrap();
    assert_eq!(get_raw_storage(&rt).unwrap(), b"raw".to_vec());
    initialize_runtime(&mut rt, [7u8; 32], b"fresh".to_vec());
    assert_eq!(get_controller(&rt).unwrap(), [7u8; 32]);
    assert_eq!(get_raw_storage(&rt).unwrap(), b"fresh".to_vec());
    __value_to_context_log(&mut rt, "Hello, Valence!").unwrap();
    __value_to_context_log(&mut rt, "Multiple entries").unwrap();
    assert_eq!(rt.log, vec!["Hello, Valence!".to_string(), "Multiple entries".to_string()]);
    initialize_default_runtime(&mut rt);
    assert_eq!(get_controller(&rt).unwrap(), [0u8; 32]);
    assert!(get_raw_storage(&rt).unwrap().is_empty());
    assert_eq!(rt.log.len(), 2);
}

#[test]
fn host_answers_are_bounded_by_the_buffer() {
    let mut buf = vec![0u8; BUF_LEN];
    buf[..4].copy_from_slice(b"file");
    assert_eq!(get_storage_file(4, &buf).unwrap(), b"file".to_vec());
    assert_eq!(get_storage_file(0, &buf).unwrap(), Vec::<u8>::new());
    assert_eq!(
        get_storage_file(-1, &buf).unwrap_err().message,
        "failed to fetch controller storage file"
    );
    assert_eq!(
        get_storage_file(BUF_LEN as i32 + 1, &buf).unwrap_err().message,
        "controller storage file too large"
    );
}

#[test]
fn historical_payload_is_decoded() {
    let mut buf = vec![0u8; BUF_LEN];
    buf[0] = 0xc0;
    assert_eq!(get_historical_payload(1, &buf).unwrap(), None);
    assert_eq!(get_historical_payload(-3, &buf).unwrap_err().message, "failed to read historical payload");
    assert_eq!(get_historical_payload(BUF_LEN as i32 + 1, &buf).unwrap_err().message, "arguments too large");
    let e = get_historical_payload(0, &buf).unwrap_err();
    assert!(e.message.starts_with("error unpacking historical payload: "));
    assert_eq!(historical_payload_from(Ok(Some(vec![1, 2]))).unwrap(), Some(vec![1, 2]));
    assert_eq!(
        historical_payload_from(Err("bad".to_string())).unwrap_err().message,
        "error unpacking historical payload: bad"
    );
}

#[test]
fn hashes_parse_from_hex() {
    let hex = "00112233445566778899aabbccddeeff00112233445566778899AABBCCDDEEFF";
    let h = try_str_to_hash(hex).unwrap();
    assert_eq!(h[0], 0x00);
    assert_eq!(h[1], 0x11);
    assert_eq!(h[15], 0xff);
    assert_eq!(h[31], 0xff);
    assert!(matches!(try_str_to_hash("abc"), Err(HashParseError::InvalidHex(_))));
    assert!(matches!(try_str_to_hash("zz"), Err(HashParseError::InvalidHex(_))));
    assert!(matches!(try_str_to_hash("abcd"), Err(HashParseError::InvalidLength)));

    let (c, r) = request_ids(None, None).unwrap();
    assert_eq!(c, [0u8; 32]);
    assert!(r.is_none());
    let (c, r) = request_ids(Some(hex), Some(hex)).unwrap();
    assert_eq!(c, h);
    assert_eq!(r, Some(h));
    assert!(request_ids(Some("00"), None).is_err());
    assert!(request_ids(None, Some("xyz")).is_err());
}

#[test]
fn groth16_points_are_reversed_coordinates() {
    let p: Vec<u8> = (0..=255u8).collect();
    let (a, b, c) = proof_points(&p);
    assert_eq!(a.len(), 65);
    assert_eq!(b.len(), 129);
    assert_eq!(c.len(), 65);
    assert_eq!(a[0], 31);
    assert_eq!(a[31], 0);
    assert_eq!(a[32], 63);
    assert_eq!(a[64], 0);
    assert_eq!(b[0], 127);
    assert_eq!(b[64], 191);
    assert_eq!(b[127], 128);
    assert_eq!(c[0], 223);
    assert_eq!(c[63], 224);

    let values = b"public values";
    let mut expected: [u8; 32] = sha2::Sha256::digest(values).into();
    expected[0] &= 0x1f;
    let d = public_values_digest(values);
    assert_eq!(d, expected);
    assert!(d[0] < 0x20);
}

#[test]
fn app_settings_and_docker_invocation() {
    let app = App::default();
    assert_eq!(app.socket, App::DEFAULT_SOCKET);
    assert_eq!(app.tag, App::DEFAULT_TAG);
    assert_eq!(app.docker, App::DEFAULT_DOCKER);
    assert!(!app.docker_host);
    let app = app.with_socket("http://localhost:37281").with_tag("v1").with_docker("img").with_docker_host(true);
    assert_eq!(app.socket, "http://localhost:37281");
    assert_eq!(app.tag, "v1");
    assert_eq!(app.docker, "img");
    let args = app.docker_args("domain", "/ws", "pkg", "/crates/c", &["name"]);
    assert_eq!(
        args,
        vec![
            "run", "--rm", "-i", "--network", "host", "-v", "/ws:/mnt", "img", "domain", "v1", "pkg",
            "/mnt/crates/c", "http://localhost:37281", "name",
        ]
    );
    let args = app.with_docker_host(false).docker_args("controller", "/w", "p", "", &[]);
    assert_eq!(args[3], "-v");
    assert_eq!(args.len(), 11);
    let app = App::default().with_socket("http://s");
    assert_eq!(app.controller_uri("abc", "prove"), "http://s/api/registry/controller/abc/prove");
    assert_eq!(path_suffix("/home/ws/crates/x", 8), "/crates/x");
}

#[test]
fn service_defaults_and_modes() {
    let c = Config::default();
    assert_eq!(c.redis, None);
    assert_eq!(c.socket, "0.0.0.0:37281");
    assert_eq!(c.module_cache_capacity, 100);
    assert_eq!(c.zkvm_mode, "mock");
    assert_eq!(c.zkvm_cache_capacity, 10);
    for name in ["mock", "cpu", "gpu", "network"] {
        assert_eq!(Mode::try_from(name).unwrap(), Mode::Mock);
    }
    assert_eq!(Mode::try_from("tpu").unwrap_err().message, "invalid SP1 zkVM mode: `tpu`");
    assert_eq!(Ack::Kill, Ack::Kill);
}

fn member(name: Option<&str>, manifest: Option<&str>) -> WorkspaceMember {
    WorkspaceMember {
        name: name.map(String::from),
        manifest_path: manifest.map(String::from),
    }
}

#[test]
fn circuit_is_found_among_workspace_members() {
    let members = vec![
        member(Some("controller"), Some("/ws/crates/controller/Cargo.toml")),
        member(Some("circuit"), None),
        member(None, Some("/ws/other/Cargo.toml")),
        member(Some("circuit"), Some("/ws/crates/circuit/Cargo.toml")),
        member(Some("circuit"), Some("/ws/later/Cargo.toml")),
    ];
    assert_eq!(
        find_member_manifest(&members, "circuit").as_deref(),
        Some("/ws/crates/circuit/Cargo.toml")
    );
    assert_eq!(find_member_manifest(&members, "missing"), None);
    assert_eq!(
        circuit_directory(&Some(members), "circuit", "/ws").unwrap(),
        "/ws/crates/circuit"
    );
}

#[test]
fn circuit_directory_errors() {
    assert_eq!(
        circuit_directory(&None, "c", "/ws").unwrap_err().message(),
        "failed to get packages from metadata"
    );
    let members = vec![member(Some("a"), Some("/ws/a/Cargo.toml"))];
    assert_eq!(
        circuit_directory(&Some(members), "c", "/ws").unwrap_err().message(),
        "could not find the circuit `c` as workspace member of `/ws`."
    );
    let members = vec![member(Some("c"), Some("/"))];
    assert!(matches!(
        circuit_directory(&Some(members), "c", "/ws"),
        Err(CliError::MissingCircuitDirectory)
    ));
    assert_eq!(
        CliError::MissingCircuitDirectory.message(),
        "could not define the crate directory of the circuit package."
    );
    assert_eq!(
        CliError::MissingWorkspaceRoot.message(),
        "failed to get workspace root from cargo metadata"
    );
    assert_eq!(
        CliError::MissingPackageName.message(),
        "failed to read package name from manifest"
    );
}

#[test]
fn package_directory_is_the_manifest_parent() {
    assert_eq!(package_directory("/ws/crates/x/Cargo.toml").unwrap(), "/ws/crates/x");
    assert_eq!(
        package_directory("/").unwrap_err().message(),
        "failed to get parent dir of manifest file"
    );
}

#[test]
fn arguments_and_result_start_null_and_keep_what_is_set() {
    let mut rt = Runtime::default();
    assert_eq!(args(&rt).unwrap(), serde_json::Value::Null);
    assert_eq!(rt.ret, serde_json::Value::Null);
    let value: serde_json::Value = serde_json::from_str("{\"sum\":3}").unwrap();
    ret(&mut rt, &value).unwrap();
    assert_eq!(rt.ret, value);
    rt.args = serde_json::Value::Bool(true);
    assert_eq!(args(&rt).unwrap(), serde_json::Value::Bool(true));
    initialize_runtime(&mut rt, [3u8; 32], vec![1]);
    assert_eq!(rt.ret, value);
}

#[test]
fn cache_capacity_refuses_zero() {
    assert_eq!(valence::cache::vm_cache_capacity(0), Err("invalid capacity".to_string()));
    assert_eq!(valence::cache::vm_cache_capacity(10), Ok(10));
}

#[test]
fn workspace_layout_reads_cargo_metadata() {
    let metadata = br#"{"workspace_root":"/ws","packages":[{"name":"ctl","manifest_path":"/ws/ctl/Cargo.toml"},{"name":7}]}"#;
    let layout = workspace_layout(metadata, "/ws/ctl/Cargo.toml").unwrap();
    assert_eq!(layout.wsroot, "/ws");
    assert_eq!(layout.pkrelative, "/ctl");
    let members = layout.members.unwrap();
    assert_eq!(members.len(), 2);
    assert_eq!(members[0].name.as_deref(), Some("ctl"));
    assert_eq!(members[0].manifest_path.as_deref(), Some("/ws/ctl/Cargo.toml"));
    assert_eq!(members[1].name, None);
    assert_eq!(members[1].manifest_path, None);

    let no_packages = workspace_layout(br#"{"workspace_root":"/ws"}"#, "/ws/a/Cargo.toml").unwrap();
    assert!(no_packages.members.is_none());
}

#[test]
fn workspace_layout_refuses_each_missing_part() {
    assert!(matches!(workspace_layout(b"not json", "/ws/Cargo.toml"), Err(CliError::InvalidMetadata(_))));
    assert_eq!(
        workspace_layout(br#"{"packages":[]}"#, "/ws/Cargo.toml").unwrap_err().message(),
        "failed to get workspace root from cargo metadata"
    );
    assert!(matches!(
        workspace_layout(br#"{"workspace_root":"/ws"}"#, ""),
        Err(CliError::MissingParentDirectory)
    ));
    assert!(matches!(
        workspace_layout(br#"{"workspace_root":"/a/longer/root"}"#, "/a/Cargo.toml"),
        Err(CliError::PackageOutsideWorkspace)
    ));
}

#[test]
fn manifest_package_reads_the_package_name() {
    assert_eq!(manifest_package("[package]\nname = \"ctl\"\n").unwrap(), "ctl");
    assert_eq!(
        manifest_package("[workspace]\nmembers = []\n").unwrap_err().message(),
        "failed to read package name from manifest"
    );
    assert!(matches!(manifest_package("[package]\nname = 3\n"), Err(CliError::MissingPackageName)));
    assert!(matches!(manifest_package("not = = toml"), Err(CliError::InvalidManifest(_))));
}

#[test]
fn stored_proof_reads_each_step() {
    // {"proof":"abc"}
    assert_eq!(stored_proof("eyJwcm9vZiI6ImFiYyJ9").unwrap(), "abc");
    assert!(matches!(stored_proof("*"), Err(CliError::InvalidStoredData(_))));
    // "not json" as base64
    assert!(matches!(stored_proof("bm90IGpzb24="), Err(CliError::InvalidStoredJson(_))));
    // {"other":1}
    assert_eq!(
        stored_proof("eyJvdGhlciI6MX0=").unwrap_err().message(),
        "unexpected data format for proof"
    );
}

#[test]
fn host_ret_records_json_and_refuses_other_bytes() {
    let mut rt = Runtime::default();
    assert_eq!(host_ret(&mut rt, b"{\"ok\":true}"), ReturnCodes::Success);
    let expected: serde_json::Value = serde_json::from_str("{\"ok\":true}").unwrap();
    assert_eq!(rt.ret, expected);
    assert_eq!(host_ret(&mut rt, b"{"), ReturnCodes::ReturnBytes);
    assert_eq!(rt.ret, expected);
    assert_eq!(host_read_json(b"[1]").unwrap(), serde_json::from_str::<serde_json::Value>("[1]").unwrap());
    assert_eq!(host_read_json(b"nope").unwrap_err(), ReturnCodes::JsonValue);
}
