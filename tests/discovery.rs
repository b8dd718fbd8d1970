use scamp::announcement::{AnnouncementPacket, AnnouncementParseError};
use scamp::cache_file::CacheFileAnnouncementIterator;
use scamp::config::Config;
use scamp::registry::{pathver, ServiceRegistry};
use scamp::service_info::{
    AnnouncementBody, CrudOp, Field, Flag, PacketSection, ServiceInfoParseError, V3Fault,
};

const V3_RECORD: &str = "[3,\"mainapi:4HaM4TN5IVSLNfqhERfKvsVu\",\"main\",1,5000,\"beepish+tls://172.18.0.7:30201\",[\"json\",\"jsonstore\"],[[\"API.Documentation\",[\"fetch_tree\",\"noauth,read\"]],[\"API.Status\",[\"health_check\",\"\"],[\"ping\",\"t600\",2]]],1720724094.61916]\n\n-----BEGIN CERTIFICATE-----\nMIIB\n-----END CERTIFICATE-----\n\nc2lnbmF0dXJl";

fn body(text: &str) -> AnnouncementBody {
    AnnouncementBody::parse(text).unwrap()
}

#[test]
fn packet_single_announcement() {
    let announcement = AnnouncementPacket::parse(V3_RECORD).unwrap();
    assert_eq!(announcement.body.info.identity, "mainapi:4HaM4TN5IVSLNfqhERfKvsVu");
    assert_eq!(announcement.body.actions.len(), 3);
    assert_eq!(announcement.certificate, "-----BEGIN CERTIFICATE-----\nMIIB\n-----END CERTIFICATE-----");
    assert_eq!(announcement.signature, "c2lnbmF0dXJl");
    assert!(announcement.signature_is_valid());
}

#[test]
fn announcement_single_announcement() {
    let announcement = AnnouncementPacket::parse(V3_RECORD).unwrap();
    let a = &announcement.body.actions;
    assert_eq!(a[0].path, "API.Documentation.fetch_tree");
    assert_eq!(a[0].flags, vec![Flag::NoAuth, Flag::CrudOp(CrudOp::Read)]);
    assert_eq!(a[1].path, "API.Status.health_check");
    assert!(a[1].flags.is_empty());
    assert_eq!(a[2].path, "API.Status.ping");
    assert_eq!(a[2].version, 2);
    assert_eq!(a[2].flags, vec![Flag::Timeout(600)]);
    for action in a {
        assert_eq!(action.sector, "main");
        assert_eq!(action.envelopes, vec!["json".to_string(), "jsonstore".to_string()]);
        assert_eq!(action.packet_section, PacketSection::V3);
    }
}

#[test]
fn scenario_a() {
    let text = "[3,\"svcA\",\"main\",1,5000,\"tcp://h:1\",[\"json\"],[[\"NS\",[\"act\",\"noauth\",1]]],1700000000.0]\n\ncert\n\nsig";
    let p = AnnouncementPacket::parse(text).unwrap();
    let info = &p.body.info;
    assert_eq!(info.identity, "svcA");
    assert_eq!(info.weight, 1);
    assert_eq!(info.interval, 5000);
    assert_eq!(info.uri, "tcp://h:1");
    assert_eq!(info.timestamp.as_f64(), Some(1700000000.0));
    assert_eq!(p.body.actions.len(), 1);
    let a = &p.body.actions[0];
    assert_eq!(a.path, "NS.act");
    assert_eq!(a.version, 1);
    assert_eq!(a.flags, vec![Flag::NoAuth]);
    assert_eq!(a.sector, "main");
    assert_eq!(a.envelopes, vec!["json".to_string()]);
    assert_eq!(p.certificate, "cert");
    assert_eq!(p.signature, "sig");
}

#[test]
fn record_part_counts() {
    assert!(matches!(AnnouncementPacket::parse("[]"), Err(AnnouncementParseError::MissingCertificate)));
    assert!(matches!(AnnouncementPacket::parse("[]\n\ncert"), Err(AnnouncementParseError::MissingSignature)));
    assert!(matches!(AnnouncementPacket::parse("[]\n\nc\n\ns\n\nx"), Err(AnnouncementParseError::TooManyParts)));
    assert!(matches!(
        AnnouncementPacket::parse("{\n\nc\n\ns"),
        Err(AnnouncementParseError::ServiceInfoParseError(ServiceInfoParseError::JsonError(_)))
    ));
    assert!(matches!(
        AnnouncementPacket::parse("[1,2]\n\nc\n\ns"),
        Err(AnnouncementParseError::ServiceInfoParseError(ServiceInfoParseError::InvalidRootArray))
    ));
}

#[test]
fn test_parse() {
    let text = "[4,\"store:1\",\"Main\",2,3000,\"beepish+tls://10.0.0.1:30100\",[\"json\",{\"vmaj\":4,\"acns\":[[2,\"Product.Sku\"],\"Order\"],\"acname\":[\"fetch\",\"update\",\"create\"],\"acenv\":[[3,\"json,jsonstore\"]],\"acsec\":[[3,\"WEB\"]],\"acver\":[[2,1],3],\"acflag\":[\"\",\"t300\",\"noauth,create\"]}],[[\"Legacy\",[\"call\",\"update\"]]],1720724094.61916]";
    let b = body(text);
    assert_eq!(b.info.identity, "store:1");
    assert_eq!(b.info.weight, 2);
    assert_eq!(b.info.interval, 3000);
    assert_eq!(b.info.timestamp.as_f64(), Some(1720724094.61916));
    let a = &b.actions;
    assert_eq!(a.len(), 4);
    assert_eq!(a[0].path, "Product.Sku.fetch");
    assert_eq!(a[0].version, 1);
    assert!(a[0].flags.is_empty());
    assert_eq!(a[0].sector, "web");
    assert_eq!(a[0].envelopes, vec!["json".to_string(), "jsonstore".to_string()]);
    assert_eq!(a[0].packet_section, PacketSection::V4);
    assert_eq!(a[1].path, "Product.Sku.update");
    assert_eq!(a[1].flags, vec![Flag::Timeout(300)]);
    assert_eq!(a[2].path, "Order.create");
    assert_eq!(a[2].version, 3);
    assert_eq!(a[2].flags, vec![Flag::NoAuth, Flag::CrudOp(CrudOp::Create)]);
    assert_eq!(a[3].path, "Legacy.call");
    assert_eq!(a[3].sector, "Main");
    assert_eq!(a[3].envelopes, vec!["json".to_string()]);
    assert_eq!(a[3].flags, vec![Flag::CrudOp(CrudOp::Update)]);
    assert_eq!(a[3].packet_section, PacketSection::V3);
}

fn v4(object: &str) -> Result<AnnouncementBody, ServiceInfoParseError> {
    AnnouncementBody::parse(&format!("[4,\"s\",\"main\",1,1,\"u\",[{}],[],1]", object))
}

#[test]
fn rle_failures_are_specific() {
    let ok = v4("{\"acns\":[[2,\"A\"]],\"acname\":[\"x\",\"y\"],\"acenv\":[[2,\"json\"]],\"acsec\":[[2,\"s\"]]}").unwrap();
    assert_eq!(ok.actions.len(), 2);
    assert_eq!(ok.actions[1].path, "A.y");
    assert_eq!(ok.actions[1].version, 0);
    assert!(matches!(
        v4("{\"acns\":[[3,\"A\"]],\"acname\":[\"x\",\"y\"],\"acenv\":[[2,\"json\"]],\"acsec\":[[2,\"s\"]]}"),
        Err(ServiceInfoParseError::RLELength(Field::Acns, 2, 3))
    ));
    assert!(matches!(
        v4("{\"acns\":[[2,\"A\"]],\"acname\":[\"x\",\"y\"],\"acenv\":[\"json\"],\"acsec\":[[2,\"s\"]]}"),
        Err(ServiceInfoParseError::RLELength(Field::Acenv, 2, 1))
    ));
    assert!(matches!(
        v4("{\"acns\":[[2,\"A\",7]],\"acname\":[\"x\",\"y\"],\"acenv\":[[2,\"json\"]],\"acsec\":[[2,\"s\"]]}"),
        Err(ServiceInfoParseError::RLEChunkLen(Field::Acns, 0, 3))
    ));
    assert!(matches!(
        v4("{\"acns\":[[-1,\"A\"]],\"acname\":[\"x\",\"y\"],\"acenv\":[[2,\"json\"]],\"acsec\":[[2,\"s\"]]}"),
        Err(ServiceInfoParseError::RLERepeatCount(Field::Acns, 0))
    ));
    assert!(matches!(
        v4("{\"acns\":[[2,5]],\"acname\":[\"x\",\"y\"],\"acenv\":[[2,\"json\"]],\"acsec\":[[2,\"s\"]]}"),
        Err(ServiceInfoParseError::RLEValue(Field::Acns, 0))
    ));
    assert!(matches!(
        v4("{\"acns\":[[2,\"A\"]],\"acname\":[\"x\",\"y\"],\"acenv\":[[2,\"json\"]],\"acsec\":[[2,\"s\"]],\"acver\":[[3,1]]}"),
        Err(ServiceInfoParseError::RLEOverrun(Field::Acver, 0))
    ));
    assert!(matches!(
        v4("{\"acname\":[\"x\"],\"acenv\":[\"json\"],\"acsec\":[\"s\"]}"),
        Err(ServiceInfoParseError::MissingField(Field::Acns))
    ));
    assert!(matches!(
        v4("{\"acns\":[[99999999,\"A\"]],\"acname\":[\"x\"],\"acenv\":[\"json\"],\"acsec\":[\"s\"]}"),
        Err(ServiceInfoParseError::RLEOverrun(Field::Acns, 0))
    ));
}

#[test]
fn field_failures_are_specific() {
    let parse = |s: &str| AnnouncementBody::parse(s);
    assert!(matches!(parse("{}"), Err(ServiceInfoParseError::ExpectedJsonArray)));
    assert!(matches!(parse("[\"x\",\"s\",\"m\",1,1,\"u\",[],[],1]"), Err(ServiceInfoParseError::MissingField(Field::Version))));
    assert!(matches!(parse("[3,\"s\",\"m\",4294967296,1,\"u\",[],[],1]"), Err(ServiceInfoParseError::InvalidField(Field::Weight))));
    assert!(matches!(parse("[3,\"s\",\"m\",1,1,\"u\",[],[],\"t\"]"), Err(ServiceInfoParseError::MissingField(Field::Timestamp))));
    assert!(matches!(parse("[3,\"s\",\"m\",1,1,\"u\",[],[5],1]"), Err(ServiceInfoParseError::InvalidV3Namespace(0))));
    assert!(matches!(parse("[3,\"s\",\"m\",1,1,\"u\",[],[[5]],1]"), Err(ServiceInfoParseError::MissingField(Field::Namespace))));
    assert!(matches!(
        parse("[3,\"s\",\"m\",1,1,\"u\",[],[[\"N\",[\"a\",\"\"],[\"b\"]]],1]"),
        Err(ServiceInfoParseError::InvalidV3Action(0, 1, V3Fault::Shape))
    ));
    assert!(matches!(
        parse("[3,\"s\",\"m\",1,1,\"u\",[],[[\"N\",[\"a\",5]]],1]"),
        Err(ServiceInfoParseError::InvalidV3Action(0, 0, V3Fault::Flags))
    ));
    assert!(matches!(
        parse("[3,\"s\",\"m\",1,1,\"u\",[],[[\"N\",[\"a\",\"\",-1]]],1]"),
        Err(ServiceInfoParseError::InvalidV3Action(0, 0, V3Fault::Version))
    ));
}

#[test]
fn flags() {
    assert_eq!(Flag::parse("noauth"), Flag::NoAuth);
    assert_eq!(Flag::parse("t600"), Flag::Timeout(600));
    assert_eq!(Flag::parse("t4294967296"), Flag::Other("t4294967296".to_string()));
    assert_eq!(Flag::parse("t"), Flag::Other("t".to_string()));
    assert_eq!(Flag::parse("t6x"), Flag::Other("t6x".to_string()));
    assert_eq!(Flag::parse("delete"), Flag::CrudOp(CrudOp::Delete));
    assert_eq!(Flag::parse("secret"), Flag::Other("secret".to_string()));
    assert_eq!(CrudOp::parse("update"), Some(CrudOp::Update));
    assert_eq!(CrudOp::parse("Update"), None);
}

fn record(identity: &str, actions: &[(&str, u32)]) -> String {
    let acts: Vec<String> = actions.iter().map(|(n, v)| format!("[\"{}\",\"\",{}]", n, v)).collect();
    format!(
        "[3,\"{}\",\"main\",1,1,\"tcp://{}\",[\"json\"],[[\"svc\",{}]],1]\n\ncert\n\nsig",
        identity,
        identity,
        acts.join(",")
    )
}

fn cache(records: &[String]) -> Vec<u8> {
    records.join("\n%%%\n").into_bytes()
}

fn read_records(bytes: &[u8], chunk: usize) -> Vec<String> {
    let mut it = CacheFileAnnouncementIterator::new();
    let mut out = Vec::new();
    for c in bytes.chunks(chunk) {
        for r in it.feed(c) {
            out.push(String::from_utf8(r).unwrap());
        }
    }
    if let Some(r) = it.finish() {
        out.push(String::from_utf8(r).unwrap());
    }
    out
}

#[test]
fn test_cache_file_announcement_iterator() {
    let records = vec![record("a", &[("x", 1)]), record("b", &[("y", 1), ("z", 2)])];
    let mut bytes = cache(&records);
    bytes.extend_from_slice(b"\n%%%\n\n%%%\n");
    for chunk in [1, 2, 3, 5, 7, 64, 4096] {
        assert_eq!(read_records(&bytes, chunk), records);
    }
    let mut trailing = cache(&records);
    trailing.extend_from_slice(b"\n%%%\ngarbage");
    let got = read_records(&trailing, 3);
    assert_eq!(got.len(), 3);
    assert_eq!(got[2], "garbage");
    assert!(AnnouncementPacket::parse(&got[2]).is_err());
}

#[test]
fn registry_holds_every_action() {
    let records = vec![
        record("a", &[("x", 1), ("y", 1)]),
        record("b", &[("x", 1)]),
        record("c", &[("z", 3), ("x", 2), ("y", 1)]),
        "not a record".to_string(),
    ];
    let bytes = cache(&records);
    let mut registry = ServiceRegistry::empty();
    let mut failures = 0;
    for r in read_records(&bytes, 11) {
        if registry.insert_record(&r).is_err() {
            failures += 1;
        }
    }
    assert_eq!(failures, 1);
    let entries = registry.actions_iter();
    assert_eq!(entries.len(), 6);
    assert!(entries.iter().all(|e| e.authorized));
    let x1 = registry.find_actions("svc.x~1").unwrap();
    assert_eq!(x1.len(), 2);
    assert_eq!(x1[0].service_info.identity, "a");
    assert_eq!(x1[0].service_info.uri, "tcp://a");
    assert_eq!(x1[1].service_info.identity, "b");
    let z3 = registry.find_actions("svc.z~3").unwrap();
    assert_eq!(z3.len(), 1);
    assert_eq!(z3[0].service_info.identity, "c");
    assert_eq!(z3[0].action.path, "svc.z");
    assert!(registry.find_actions("svc.x~9").is_none());
    assert_eq!(pathver(&x1[0].action), "svc.x~1");
}

#[test]
fn selection_reaches_every_provider() {
    let mut registry = ServiceRegistry::empty();
    for id in ["p1", "p2", "p3"] {
        assert!(registry.insert_record(&record(id, &[("act", 1)])).unwrap());
    }
    let mut seen = std::collections::BTreeMap::new();
    for _ in 0..1000 {
        let e = registry.get_action("svc.act~1").unwrap();
        assert_eq!(e.action.path, "svc.act");
        assert_eq!(e.action.version, 1);
        *seen.entry(e.service_info.identity.clone()).or_insert(0) += 1;
    }
    assert_eq!(seen.len(), 3);
    assert!(registry.get_action("svc.act~2").is_none());
    let first = registry.get_action_at("svc.act~1", 4).unwrap();
    assert_eq!(first.service_info.identity, "p2");
}

#[test]
fn config_lookup() {
    let text = "# discovery\ndiscovery.cache_path = /var/cache/disc.txt\r\n\n  beepish.heartbeat_interval=10  \nnot a setting\ndiscovery.cache_path = /tmp/other = x\n";
    let c = Config::parse(text);
    assert_eq!(c.get("discovery.cache_path"), Some("/tmp/other = x"));
    assert_eq!(c.get("beepish.heartbeat_interval"), Some("10"));
    assert_eq!(c.get("missing"), None);
    assert_eq!(c.get("# discovery"), None);
}
