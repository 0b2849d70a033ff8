use kvs::{encode_cmd, read_value, Cmd, KvsCore, KvsError, COMPACT_THRESHOLD};
use std::collections::BTreeMap;

/// A store over log files kept in memory: the caller's part of each operation.
struct Store {
    core: KvsCore,
    files: BTreeMap<u64, Vec<u8>>,
}

impl Store {
    fn open(files: BTreeMap<u64, Vec<u8>>) -> Result<Store, KvsError> {
        let mut core = KvsCore::new();
        for (id, bytes) in &files {
            core.load_log(*id, bytes)?;
        }
        let mut store = Store { core, files };
        let id = store.core.start_new_log()?;
        store.files.insert(id, Vec::new());
        Ok(store)
    }

    fn append(&mut self, cmd: Cmd) -> Result<(), KvsError> {
        let rec = self.core.prepare(cmd)?;
        let active = self.core.current_file_id();
        self.files.get_mut(&active).unwrap().extend_from_slice(rec.bytes());
        if let Some(plan) = self.core.commit(&rec) {
            let mut compacted = Vec::new();
            for p in &plan.copies {
                let src = &self.files[&p.file_id];
                compacted.extend_from_slice(&src[p.kv_pos as usize..(p.kv_pos + p.len) as usize]);
            }
            self.files.insert(plan.compact_id, compacted);
            self.files.insert(plan.active_id, Vec::new());
            let ids: Vec<u64> = self.files.keys().copied().collect();
            for id in kvs::stale_logs(&ids, plan.compact_id) {
                self.files.remove(&id);
            }
        }
        Ok(())
    }

    fn set(&mut self, k: &str, v: &str) {
        self.append(Cmd::Put { key: k.to_owned(), value: v.to_owned() }).unwrap();
    }

    fn get(&self, k: &str) -> Result<Option<String>, KvsError> {
        match self.core.locate(k) {
            None => Ok(None),
            Some(p) => {
                let src = &self.files[&p.file_id];
                read_value(&src[p.kv_pos as usize..(p.kv_pos + p.len) as usize]).map(Some)
            }
        }
    }

    fn remove(&mut self, k: &str) -> Result<(), KvsError> {
        self.append(Cmd::Remove { key: k.to_owned() })
    }

    fn close(self) -> BTreeMap<u64, Vec<u8>> {
        self.files
    }
}

#[test]
fn basic_lifecycle() {
    let mut s = Store::open(BTreeMap::new()).unwrap();
    s.set("a", "1");
    s.set("b", "2");
    assert_eq!(s.get("a").unwrap(), Some("1".to_owned()));
    assert_eq!(s.get("b").unwrap(), Some("2".to_owned()));
    assert_eq!(s.get("c").unwrap(), None);
    assert!(s.remove("a").is_ok());
    assert_eq!(s.get("a").unwrap(), None);
    assert!(matches!(s.remove("a"), Err(KvsError::KeyNotFound)));
}

#[test]
fn overwrite_and_reopen() {
    let mut s = Store::open(BTreeMap::new()).unwrap();
    s.set("k", "v1");
    s.set("k", "v2");
    assert_eq!(s.get("k").unwrap(), Some("v2".to_owned()));
    let s = Store::open(s.close()).unwrap();
    assert_eq!(s.get("k").unwrap(), Some("v2".to_owned()));
}

#[test]
fn a_new_core_has_no_log_until_one_is_started() {
    let mut core = KvsCore::new();
    assert!(!core.has_log());
    assert_eq!(core.start_new_log().unwrap(), 1);
    assert!(core.has_log());
    assert_eq!(core.active_end(), 0);
}

#[test]
fn first_log_id_is_one_and_reopen_moves_on() {
    let s = Store::open(BTreeMap::new()).unwrap();
    assert_eq!(s.core.current_file_id(), 1);
    let s = Store::open(s.close()).unwrap();
    assert_eq!(s.core.current_file_id(), 2);
}

#[test]
fn dead_bytes_are_counted() {
    let mut s = Store::open(BTreeMap::new()).unwrap();
    s.set("k", "v1");
    assert_eq!(s.core.uncompact(), 0);
    let first = encode_cmd(&Cmd::Put { key: "k".into(), value: "v1".into() }).len() as u64;
    s.set("k", "v2");
    assert_eq!(s.core.uncompact(), first);
    let second = encode_cmd(&Cmd::Put { key: "k".into(), value: "v2".into() }).len() as u64;
    let removal = encode_cmd(&Cmd::Remove { key: "k".into() }).len() as u64;
    s.remove("k").unwrap();
    assert_eq!(s.core.uncompact(), first + second + removal);
    let reopened = Store::open(s.close()).unwrap();
    assert_eq!(reopened.core.uncompact(), first + second + removal);
}

#[test]
fn compaction_reclaims_space() {
    let mut s = Store::open(BTreeMap::new()).unwrap();
    let value = "x".repeat(150);
    let mut last = String::new();
    for i in 0..10_000 {
        last = format!("{}{}", value, i % 7);
        s.set("k", &last);
        assert!(s.core.uncompact() < COMPACT_THRESHOLD);
    }
    assert_eq!(s.get("k").unwrap(), Some(last.clone()));
    assert!(s.core.check_point() > 0);
    assert_eq!(s.files.len(), 2);
    let record = encode_cmd(&Cmd::Put { key: "k".into(), value: last.clone() }).len();
    let total: usize = s.files.values().map(|f| f.len()).sum();
    assert!(total < COMPACT_THRESHOLD as usize + 2 * record);
    let s = Store::open(s.close()).unwrap();
    assert_eq!(s.get("k").unwrap(), Some(last));
}

#[test]
fn after_compaction_only_live_records_remain() {
    let mut s = Store::open(BTreeMap::new()).unwrap();
    let big = "y".repeat(2000);
    for i in 0..600 {
        s.set(&format!("key{}", i % 3), &big);
    }
    s.set("other", "o");
    let cp = s.core.check_point();
    assert!(cp > 0);
    let compacted = &s.files[&cp];
    let recs = kvs::decode_all(compacted).unwrap();
    assert!(recs.len() <= 4);
    for k in ["key0", "key1", "key2", "other"] {
        assert!(s.get(k).unwrap().is_some());
    }
}

#[test]
fn persistence_across_restart() {
    let mut s = Store::open(BTreeMap::new()).unwrap();
    for i in 0..500 {
        s.set(&format!("key{}", i), &format!("value{}", i));
    }
    for i in 0..500 {
        s.set(&format!("key{}", i), &format!("again{}", i));
    }
    for i in (0..500).step_by(5) {
        s.remove(&format!("key{}", i)).unwrap();
    }
    let s = Store::open(s.close()).unwrap();
    for i in 0..500 {
        let got = s.get(&format!("key{}", i)).unwrap();
        if i % 5 == 0 {
            assert_eq!(got, None);
        } else {
            assert_eq!(got, Some(format!("again{}", i)));
        }
    }
    assert_eq!(s.get("never").unwrap(), None);
}

#[test]
fn corrupt_log_is_refused() {
    let mut files = BTreeMap::new();
    let mut bytes = encode_cmd(&Cmd::Put { key: "a".into(), value: "1".into() });
    bytes.extend_from_slice(b"{\"Set\":{\"ke");
    files.insert(1, bytes);
    assert!(matches!(Store::open(files), Err(KvsError::SerdeErr(_))));
}

#[test]
fn read_value_of_spans() {
    let put = encode_cmd(&Cmd::Put { key: "a".into(), value: "1".into() });
    assert_eq!(read_value(&put).unwrap(), "1");
    let rm = encode_cmd(&Cmd::Remove { key: "a".into() });
    assert!(matches!(read_value(&rm), Err(KvsError::CommandNotSupported)));
    assert!(matches!(read_value(&put[..put.len() - 1]), Err(KvsError::SerdeErr(_))));
    let mut longer = put.clone();
    longer.push(b' ');
    assert!(matches!(read_value(&longer), Err(KvsError::SerdeErr(_))));
}

#[test]
fn error_messages() {
    assert_eq!(KvsError::KeyNotFound.message(), "key is not found in KvStore");
    assert_eq!(KvsError::CommandNotSupported.message(), "command is not supported");
    assert_eq!(KvsError::StringErr("boom".into()).message(), "boom");
}

#[test]
fn gets_of_other_keys_during_sets() {
    let mut s = Store::open(BTreeMap::new()).unwrap();
    s.set("fixed", "stays");
    let big = "z".repeat(400);
    for i in 0..4000 {
        s.set(&format!("w{}", i % 50), &big);
        assert_eq!(s.get("fixed").unwrap(), Some("stays".to_owned()));
    }
    assert!(s.core.check_point() > 0);
}

#[test]
fn no_log_id_after_the_largest() {
    let mut core = KvsCore::new();
    core.load_log(u64::MAX, b"").unwrap();
    assert_eq!(core.current_file_id(), u64::MAX);
    assert!(matches!(core.start_new_log(), Err(KvsError::IoErr(_))));
}

#[test]
fn removing_an_absent_key_changes_nothing() {
    let mut s = Store::open(BTreeMap::new()).unwrap();
    s.set("a", "1");
    let before = s.core.active_end();
    let dead = s.core.uncompact();
    assert!(matches!(s.core.prepare(Cmd::Remove { key: "b".into() }), Err(KvsError::KeyNotFound)));
    assert!(matches!(s.remove("b"), Err(KvsError::KeyNotFound)));
    assert_eq!(s.core.active_end(), before);
    assert_eq!(s.core.uncompact(), dead);
    assert_eq!(s.get("a").unwrap(), Some("1".to_owned()));
}

#[test]
fn prepare_needs_a_log_file() {
    let core = KvsCore::new();
    assert_eq!(core.check_point(), 0);
    assert!(matches!(core.prepare(Cmd::Put { key: "a".into(), value: "1".into() }), Err(KvsError::IoErr(_))));
}

#[test]
fn prepare_gives_the_record_bytes() {
    let mut core = KvsCore::new();
    core.start_new_log().unwrap();
    assert_eq!(core.check_point(), 0);
    let cmd = Cmd::Put { key: "k".into(), value: "v".into() };
    let rec = core.prepare(cmd.clone()).unwrap();
    assert_eq!(rec.bytes(), &encode_cmd(&cmd)[..]);
    assert_eq!(rec.len(), encode_cmd(&cmd).len() as u64);
}
