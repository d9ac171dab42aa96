use kvs::error::Error;
use kvs::kvs::KvStore;
use kvs::names::{generation_of_file_name, log_generation_ids};
use kvs::server::{check_engine, read_response, write_response, Command, Engine, MySay, Response};
use kvs::sled_engine::{get_outcome, removal_outcome, store_outcome, SledKvsEngine};

fn kvs_server() -> MySay {
    MySay { store: Engine::Kvs(KvStore::open(Vec::new()).unwrap()) }
}

fn ok(msg: &str) -> Response {
    Response::Success { msg: msg.to_owned() }
}

fn failed(msg: &str) -> Response {
    Response::Failure { msg: msg.to_owned() }
}

fn same(a: &Response, b: &Response) -> bool {
    match (a, b) {
        (Response::Success { msg: x }, Response::Success { msg: y }) => x == y,
        (Response::Failure { msg: x }, Response::Failure { msg: y }) => x == y,
        _ => false,
    }
}

fn get(key: &str) -> Option<Command> {
    Some(Command::Get { key: key.to_owned() })
}

fn set(key: &str, value: &str) -> Option<Command> {
    Some(Command::SetValue { key: key.to_owned(), value: value.to_owned() })
}

fn rm(key: &str) -> Option<Command> {
    Some(Command::Remove { key: key.to_owned() })
}

#[test]
fn server_set_get_rm_get() {
    let mut server = kvs_server();
    assert!(same(&server.send(set("foo", "bar")), &ok("")));
    assert!(same(&server.send(get("foo")), &ok("bar")));
    assert!(same(&server.send(rm("foo")), &ok("")));
    assert!(same(&server.send(get("foo")), &failed("key not found")));
}

#[test]
fn server_rm_absent_key_fails() {
    let mut server = kvs_server();
    assert!(same(&server.send(rm("ghost")), &failed("key not found")));
}

#[test]
fn server_unknown_command() {
    let mut server = kvs_server();
    assert!(same(&server.send(None), &failed("unknown command")));
}

#[test]
fn server_many_clients_each_read_their_own_value() {
    let mut server = kvs_server();
    for i in 0..100 {
        let k = format!("k{}", i);
        let v = format!("v{}", i);
        assert!(same(&server.send(set(&k, &v)), &ok("")));
        assert!(same(&server.send(get(&k)), &ok(&v)));
    }
    for i in 0..100 {
        let k = format!("k{}", i);
        assert!(same(&server.send(get(&k)), &ok(&format!("v{}", i))));
    }
}

#[test]
fn engine_tag_recorded_when_absent() {
    assert_eq!(check_engine(None, "kvs"), Ok(true));
}

#[test]
fn engine_tag_agreeing() {
    assert_eq!(check_engine(Some("sled".to_owned()), "sled"), Ok(false));
}

#[test]
fn engine_tag_mismatch() {
    assert_eq!(check_engine(Some("sled".to_owned()), "kvs"), Err(Error::EngineMismatch));
}

#[test]
fn file_names_parse() {
    assert_eq!(generation_of_file_name("1.log"), Some(1));
    assert_eq!(generation_of_file_name("42.log"), Some(42));
    assert_eq!(generation_of_file_name("18446744073709551615.log"), Some(u64::MAX));
    assert_eq!(generation_of_file_name("18446744073709551616.log"), None);
    assert_eq!(generation_of_file_name("0.log"), None);
    assert_eq!(generation_of_file_name("01.log"), None);
    assert_eq!(generation_of_file_name(".log"), None);
    assert_eq!(generation_of_file_name("1.logs"), None);
    assert_eq!(generation_of_file_name("1a.log"), None);
    assert_eq!(generation_of_file_name("engine.conf"), None);
}

#[test]
fn generation_ids_sorted_numerically() {
    let names: Vec<String> = ["10.log", "2.log", "engine.conf", "1.log", "x.log", "2.log"]
        .iter()
        .map(|s| s.to_string())
        .collect();
    assert_eq!(log_generation_ids(&names), vec![1, 2, 10]);
}

fn sled_dir(name: &str) -> String {
    format!("/tmp/kvs-sled-{}", name)
}

#[test]
fn sled_engine_round_trip() {
    let mut engine = SledKvsEngine::new(&sled_dir("round-trip")).unwrap();
    assert_eq!(engine.get("a".to_owned()), Ok(None));
    engine.set("a".to_owned(), "1".to_owned()).unwrap();
    assert_eq!(engine.get("a".to_owned()), Ok(Some("1".to_owned())));
    engine.set("a".to_owned(), "2".to_owned()).unwrap();
    assert_eq!(engine.get("a".to_owned()), Ok(Some("2".to_owned())));
    engine.remove("a".to_owned()).unwrap();
    assert_eq!(engine.get("a".to_owned()), Ok(None));
    assert_eq!(engine.remove("a".to_owned()), Err(Error::KeyNotFound));
}

#[test]
fn sled_engine_behind_server() {
    let engine = SledKvsEngine::new(&sled_dir("server")).unwrap();
    let mut server = MySay { store: Engine::Sled(engine) };
    assert!(same(&server.send(set("foo", "bar")), &ok("")));
    assert!(same(&server.send(get("foo")), &ok("bar")));
    assert!(same(&server.send(rm("foo")), &ok("")));
    assert!(same(&server.send(rm("foo")), &failed("key not found")));
}

#[test]
fn sled_engine_unopenable_path_is_io() {
    assert!(matches!(SledKvsEngine::new("/dev/null/kvs"), Err(Error::Io)));
}

#[test]
fn sled_get_outcomes() {
    assert_eq!(get_outcome(Ok(None)), Ok(None));
    assert_eq!(get_outcome(Ok(Some(b"v".to_vec()))), Ok(Some("v".to_owned())));
    assert_eq!(get_outcome(Ok(Some(vec![0xff]))), Err(Error::Corrupt));
    assert_eq!(get_outcome(Err(())), Err(Error::Io));
}

#[test]
fn sled_write_outcomes() {
    assert_eq!(store_outcome(Ok(None), Ok(0)), Ok(()));
    assert_eq!(store_outcome(Ok(Some(vec![1])), Err(())), Err(Error::Io));
    assert_eq!(store_outcome(Err(()), Ok(0)), Err(Error::Io));
    assert_eq!(removal_outcome(Ok(None), Ok(0)), Err(Error::KeyNotFound));
    assert_eq!(removal_outcome(Ok(Some(vec![1])), Ok(3)), Ok(()));
    assert_eq!(removal_outcome(Ok(Some(vec![1])), Err(())), Err(Error::Io));
    assert_eq!(removal_outcome(Err(()), Ok(0)), Err(Error::Io));
}

#[test]
fn response_mappings() {
    assert!(same(&read_response(Ok(Some("v".to_owned()))), &ok("v")));
    assert!(same(&read_response(Ok(None)), &failed("key not found")));
    assert!(same(&read_response(Err(Error::KeyNotFound)), &failed("key not found")));
    assert!(same(&read_response(Err(Error::Io)), &failed("storage error")));
    assert!(same(&read_response(Err(Error::Corrupt)), &failed("storage error")));
    assert!(same(&write_response(Ok(())), &ok("")));
    assert!(same(&write_response(Err(Error::KeyNotFound)), &failed("key not found")));
    assert!(same(&write_response(Err(Error::Io)), &failed("storage error")));
}

#[test]
fn engine_tag_with_trailing_newline_agrees() {
    assert_eq!(check_engine(Some("kvs\n".to_owned()), "kvs"), Ok(false));
    assert_eq!(check_engine(Some("kvs\n\n".to_owned()), "kvs"), Err(Error::EngineMismatch));
}
