use squawkbus::authentication::{
    decode_credential_bytes, load_htpasswd, password_verdict, AuthenticationManager, AuthenticationStep,
};
use squawkbus::authorization::{default_authorizations, AuthorizationManager, AuthorizationSpec, Role};
use squawkbus::message::{DataPacket, Message};
use squawkbus::options::{fetch_arg, AuthenticationOption, Options};
use squawkbus::parse::{parse_entitlements, parse_i32, parse_roles};
use squawkbus::protocol::{handle_publish, handle_subscribe, parse_message};

fn args(v: &[&str]) -> Vec<String> {
    v.iter().map(|s| s.to_string()).collect()
}

#[test]
fn integers_parse() {
    assert_eq!(parse_i32("12"), Some(12));
    assert_eq!(parse_i32("-7"), Some(-7));
    assert_eq!(parse_i32("+7"), Some(7));
    assert_eq!(parse_i32("2147483647"), Some(i32::MAX));
    assert_eq!(parse_i32("-2147483648"), Some(i32::MIN));
    assert_eq!(parse_i32("2147483648"), None);
    assert_eq!(parse_i32("99999999999999999999"), None);
    assert_eq!(parse_i32(""), None);
    assert_eq!(parse_i32("-"), None);
    assert_eq!(parse_i32("1a"), None);
    assert_eq!(parse_entitlements("1,2,3"), Some(vec![1, 2, 3]));
    assert_eq!(parse_entitlements("1,,3"), None);
}

#[test]
fn roles_parse() {
    let both = parse_roles("Subscriber|Publisher").unwrap();
    assert!(both.subscriber && both.publisher);
    let one = parse_roles("Publisher").unwrap();
    assert!(!one.subscriber && one.publisher);
    assert!(parse_roles("Reader").is_none());
}

#[test]
fn authorization_spec_parses() {
    let spec = AuthorizationSpec::from_str(".*:PUB.*:1,2:Subscriber|Publisher").unwrap();
    let manager = AuthorizationManager::new(vec![spec]);
    let mut actual = manager.entitlements("nobody", "PUB.foo", Role::Subscriber);
    actual.sort();
    assert_eq!(actual, vec![1, 2]);
    assert!(AuthorizationSpec::from_str("a:b:c").is_err());
    assert!(AuthorizationSpec::from_str("(:PUB.*:1:Publisher").is_err());
    assert!(AuthorizationSpec::from_str(".*:a.*.b:1:Publisher").is_err());
    assert!(AuthorizationSpec::from_str(".*:a:x:Publisher").is_err());
    assert!(AuthorizationSpec::from_str(".*:a:1:Owner").is_err());
}

#[test]
fn default_policy_opens_pub() {
    let manager = AuthorizationManager::new(default_authorizations());
    assert_eq!(manager.entitlements("anyone", "PUB.x", Role::Publisher), vec![0]);
    assert!(manager.entitlements("anyone", "PRIVATE.x", Role::Publisher).is_empty());
}

#[test]
fn options_defaults() {
    let options = Options::parse(&args(&["prog"])).unwrap();
    assert_eq!(options.socket_endpoint, "0.0.0.0:8558");
    assert_eq!(options.web_socket_endpoint, "0.0.0.0:8559");
    assert!(options.authorizations.is_empty());
    assert!(options.tls.is_none());
    assert!(matches!(options.authentication, AuthenticationOption::Anonymous));
}

#[test]
fn options_parse_every_flag() {
    let options = Options::parse(&args(&[
        "prog",
        "--socket-endpoint",
        "127.0.0.1:1",
        "--web-socket-endpoint",
        "127.0.0.1:2",
        "--tls",
        "cert.pem",
        "key.pem",
        "--authentication",
        "basic",
        "passwd",
        "--authorizations-file",
        "auth.yaml",
        "--authorization",
        "joe:VOD.*:1:Publisher",
        "--authorization",
        "mary:VOD.*:1:Subscriber",
    ]))
    .unwrap();
    assert_eq!(options.socket_endpoint, "127.0.0.1:1");
    assert_eq!(options.web_socket_endpoint, "127.0.0.1:2");
    let tls = options.tls.unwrap();
    assert_eq!(tls.certfile, "cert.pem");
    assert_eq!(tls.keyfile, "key.pem");
    assert!(matches!(options.authentication, AuthenticationOption::Basic(ref p) if p == "passwd"));
    assert_eq!(options.authorizations_file, Some("auth.yaml".to_string()));
    assert_eq!(options.authorizations.len(), 2);
}

#[test]
fn options_errors() {
    assert!(Options::parse(&args(&["prog", "--socket-endpoint"])).is_err());
    assert!(Options::parse(&args(&["prog", "--socket-endpoint", "a", "--socket-endpoint", "b"])).is_err());
    assert!(Options::parse(&args(&["prog", "--bogus"])).is_err());
    assert!(Options::parse(&args(&["prog", "--help"])).is_err());
    assert!(Options::parse(&args(&["prog", "--authentication", "kerberos"])).is_err());
    assert!(Options::parse(&args(&["prog", "--authentication", "ldap"])).is_err());
    assert!(Options::parse(&args(&["prog", "--tls", "only-cert"])).is_err());
    assert!(Options::parse(&args(&["prog", "--authorization", "bad"])).is_err());
    let mut index = 0usize;
    assert_eq!(fetch_arg("x", &args(&["a", "b"]), &mut index), Ok("b".to_string()));
    assert!(fetch_arg("x", &args(&["a", "b"]), &mut index).is_err());
    assert!(Options::usage("prog").starts_with("usage: prog"));
}

// "am9lOnNlY3JldA==" is the base64 of "joe:secret".
#[test]
fn credentials_decode() {
    assert_eq!(
        decode_credential_bytes(b"am9lOnNlY3JldA=="),
        Some(("joe".to_string(), "secret".to_string()))
    );
    assert_eq!(decode_credential_bytes(b"not base64!"), None);
    assert_eq!(decode_credential_bytes(&[0xff, 0xfe]), None);
}

#[test]
fn password_file_parses() {
    let table = load_htpasswd("joe:$apr1$x\r\nmary:{SHA}y\n").unwrap();
    assert_eq!(
        table,
        vec![
            ("joe".to_string(), "joe:$apr1$x".to_string()),
            ("mary".to_string(), "mary:{SHA}y".to_string()),
        ]
    );
    assert!(load_htpasswd("no separator\n").is_err());
    assert!(load_htpasswd("").unwrap().is_empty());
}

#[test]
fn authentication_decisions() {
    let none = AuthenticationManager::new(&AuthenticationOption::Anonymous, "").unwrap();
    let request = |method: &str, credentials: &[u8]| Message::AuthenticationRequest {
        method: method.into(),
        credentials: credentials.to_vec(),
    };
    assert!(matches!(none.authenticate(&request("none", b"")), Ok(AuthenticationStep::Authenticated(ref u)) if u == "nobody"));
    assert!(none.authenticate(&request("basic", b"am9lOnNlY3JldA==")).is_err());
    assert!(none.authenticate(&request("kerberos", b"")).is_err());
    assert!(none.authenticate(&Message::AuthenticationResponse { client_id: "x".into() }).is_err());

    let basic = AuthenticationManager::new(&AuthenticationOption::Basic("p".into()), "joe:hash\n").unwrap();
    match basic.authenticate(&request("basic", b"am9lOnNlY3JldA==")) {
        Ok(AuthenticationStep::VerifyPassword { entry, user, password }) => {
            assert_eq!(entry, "joe:hash");
            assert_eq!(user, "joe");
            assert_eq!(password, "secret");
        }
        _ => panic!("expected a password check"),
    }
    // "bWFyeTp4" is the base64 of "mary:x": mary is not in the file.
    assert!(basic.authenticate(&request("basic", b"bWFyeTp4")).is_err());

    let ldap = AuthenticationManager::new(&AuthenticationOption::Ldap("ldap://h".into()), "").unwrap();
    match ldap.authenticate(&request("ldap", b"am9lOnNlY3JldA==")) {
        Ok(AuthenticationStep::LdapBind { url, user, password }) => {
            assert_eq!(url, "ldap://h");
            assert_eq!(user, "joe");
            assert_eq!(password, "secret");
        }
        _ => panic!("expected an LDAP bind"),
    }
    assert_eq!(password_verdict("joe".into(), true), Ok("joe".to_string()));
    assert!(password_verdict("joe".into(), false).is_err());
}

#[test]
fn console_requests_parse() {
    let m = parse_message("  publish T 1,2 hello _ world \n").unwrap();
    assert_eq!(
        m,
        Message::MulticastData {
            topic: "T".into(),
            data_packets: vec![
                DataPacket::new(vec![1, 2], vec![("content-type".into(), "text/plain".into())], b"hello".to_vec()),
                DataPacket::new(vec![], vec![("content-type".into(), "text/plain".into())], b"world".to_vec()),
            ],
        }
    );
    assert_eq!(
        parse_message("subscribe T").unwrap(),
        Message::SubscriptionRequest { topic: "T".into(), is_add: true }
    );
    assert!(parse_message("publish T 1").is_err());
    assert!(parse_message("publish T x hello").is_err());
    assert!(parse_message("notify T").is_err());
    assert!(handle_subscribe(&args(&["subscribe"])).is_err());
    assert!(handle_publish(&args(&["publish", "T", "1", "a", "2"])).is_err());
}
