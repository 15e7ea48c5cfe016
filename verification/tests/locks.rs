use pop_vcs::auth::{auth_ok, ct_eq, owner_string};
use pop_vcs::locks::{
    assert_locks_for_index, blocked_paths, list_locks_local, list_locks_repo, lock_local, lock_repo, lock_token,
    needed_locks, purge_expired, renew_local, renew_repo, token_from, token_of, unlock_local, unlock_repo, LockDb,
    LockEntry, LockReq,
};
use pop_vcs::model::{Config, Index, IndexEntry};
use pop_vcs::strmap::{StrMap, StrSet};

fn entry(path: &str, owner: &str, ts: i64, ttl: u64) -> LockEntry {
    LockEntry { path: path.to_string(), owner: owner.to_string(), token: "tok".to_string(), ts, ttl }
}

fn db(entries: &[LockEntry]) -> LockDb {
    let mut m: LockDb = StrMap::new();
    for e in entries {
        m.insert(e.path.clone(), e.clone());
    }
    m
}

fn req(path: &str, owner: &str, token: &str) -> LockReq {
    LockReq { path: path.to_string(), owner: owner.to_string(), token: token.to_string(), ttl: 60 }
}

fn config(patterns: &[&str]) -> Config {
    Config { ignore: vec![], sparse: vec![], lock_required: patterns.iter().map(|s| s.to_string()).collect() }
}

#[test]
fn locks_run_out() {
    let mut d = db(&[entry("a", "me", 100, 10), entry("b", "me", 100, 11), entry("c", "me", 0, u64::MAX)]);
    purge_expired(&mut d, 110);
    assert!(d.contains_key("a") && d.contains_key("b") && !d.contains_key("c"));
    purge_expired(&mut d, 111);
    assert!(!d.contains_key("a") && d.contains_key("b"));
    purge_expired(&mut d, 50);
    assert_eq!(d.len(), 1);
}

#[test]
fn a_path_is_locked_once() {
    let mut d = db(&[]);
    let a = lock_local(&mut d, "p", "me", "tok", 5, 60);
    assert!(a.ok && a.save);
    assert_eq!(a.message, "locked p");
    assert_eq!(d.get("p"), Some(&entry("p", "me", 5, 60)));
    let a = lock_local(&mut d, "p", "me", "new", 6, 60);
    assert!(a.ok && !a.save);
    assert_eq!(a.message, "already locked: p (you)");
    let a = lock_local(&mut d, "p", "you", "new", 6, 60);
    assert!(!a.ok && !a.save);
    assert_eq!(a.message, "already locked: p by me");
    assert_eq!(d.get("p"), Some(&entry("p", "me", 5, 60)));
    let a = lock_local(&mut d, "p", "you", "tok", 66, 60);
    assert!(a.ok && a.save);
    let a = lock_local(&mut d, "", "me", "tok", 66, 60);
    assert_eq!((a.ok, a.message.as_str()), (false, "bad path"));
}

#[test]
fn only_the_owner_unlocks_and_renews() {
    let mut d = db(&[entry("p", "me", 0, 60)]);
    let a = unlock_local(&mut d, "p", "you", 1);
    assert_eq!((a.ok, a.message.as_str()), (false, "cannot unlock: p locked by me"));
    let a = renew_local(&mut d, "p", "you", 1, 9);
    assert_eq!((a.ok, a.message.as_str()), (false, "cannot renew: locked by me"));
    let a = renew_local(&mut d, "p", "me", 30, 90);
    assert_eq!((a.ok, a.save, a.message.as_str()), (true, true, "renewed p"));
    assert_eq!(d.get("p"), Some(&entry("p", "me", 30, 90)));
    let a = unlock_local(&mut d, "p", "me", 31);
    assert_eq!((a.ok, a.save, a.message.as_str()), (true, true, "unlocked p"));
    assert!(d.is_empty());
    let a = unlock_local(&mut d, "p", "me", 31);
    assert_eq!((a.ok, a.save, a.message.as_str()), (true, false, "not locked: p"));
    let a = renew_local(&mut d, "p", "me", 31, 9);
    assert_eq!((a.ok, a.message.as_str()), (false, "not locked: p"));
}

#[test]
fn locks_are_listed() {
    let mut d = db(&[]);
    assert_eq!(list_locks_local(&mut d, 0), vec!["(no locks)".to_string()]);
    let mut d = db(&[entry("b", "me", 100, 60), entry("a", "you", 100, 10), entry("z", "me", 0, 1)]);
    assert_eq!(
        list_locks_local(&mut d, 105),
        vec!["a  owner=you  expires_in=5s".to_string(), "b  owner=me  expires_in=55s".to_string()]
    );
    assert_eq!(d.len(), 2);
}

#[test]
fn a_commit_needs_the_locks_of_what_it_stages() {
    let mut idx = Index::blank();
    let e = IndexEntry { hash: "h".to_string(), size: 0, mtime: 0 };
    idx.put.insert("b.psd".to_string(), e.clone());
    idx.put.insert("c.txt".to_string(), e);
    idx.del.insert("a.psd".to_string());
    idx.del.insert("b.psd".to_string());
    let cfg = config(&["*.psd"]);
    let need = needed_locks(&idx, &cfg);
    assert_eq!((need.len(), need.item(0).as_str(), need.item(1).as_str()), (2, "a.psd", "b.psd"));
    assert_eq!(needed_locks(&idx, &config(&[])).len(), 0);
    assert_eq!(needed_locks(&idx, &config(&["[", "*.psd"])).len(), 0);
    let mut d = db(&[entry("a.psd", "you", 0, 60), entry("old.psd", "me", 0, 1)]);
    let said = assert_locks_for_index(&idx, &cfg, &mut d, "me", 30).unwrap_err();
    assert_eq!(
        said,
        "binary locking required:\n  - a.psd (locked by you)\n  - b.psd (missing lock)\n\nUse:\n  pop lock <path>\n(or pop lock <path> --remote ... --repo ...)\n"
    );
    assert_eq!(d.len(), 1);
    let mut d = db(&[entry("a.psd", "me", 0, 60), entry("b.psd", "me", 0, 60)]);
    assert_eq!(assert_locks_for_index(&idx, &cfg, &mut d, "me", 30), Ok(()));
    assert!(assert_locks_for_index(&idx, &cfg, &mut d, "me", 61).is_err());
}

#[test]
fn blocked_paths_are_told_in_order() {
    let mut need = StrSet::new();
    need.insert("q".to_string());
    need.insert("p".to_string());
    need.insert("r".to_string());
    let d = db(&[entry("p", "you", 0, 9), entry("q", "me", 0, 9)]);
    assert_eq!(
        blocked_paths(&need, &d, "me"),
        vec!["p (locked by you)".to_string(), "r (missing lock)".to_string()]
    );
}

#[test]
fn tokens_are_random_and_plain() {
    assert_eq!(token_of(&[0u8; 16]), "AAAAAAAAAAAAAAAAAAAAAA");
    assert_eq!(token_of(&[255, 255, 255, 251]), "____-w");
    assert_eq!(token_from(&Ok(vec![255, 255, 255, 251])), Some("____-w".to_string()));
    assert_eq!(token_from(&Err(rand::Error::new("none left"))), None);
    let a = lock_token().unwrap();
    let b = lock_token().unwrap();
    assert_eq!(a.len(), 22);
    assert_ne!(a, b);
    assert!(a.chars().all(|c| c.is_ascii_alphanumeric() || c == '-' || c == '_'));
}

#[test]
fn strangers_change_no_lock() {
    let start = [entry("p", "me", 0, 60)];
    let mut d = db(&start);
    for r in [
        list_locks_repo(false, &mut d, 999),
        lock_repo(false, &mut d, &req("p", "you", "x"), 999),
        unlock_repo(false, &mut d, &req("p", "me", "tok"), 999),
        renew_repo(false, &mut d, &req("p", "me", "tok"), 999),
    ] {
        assert_eq!((r.status, r.save, r.resp.ok, r.resp.message.as_str()), (401, false, false, "unauthorized"));
        assert!(r.resp.locks.is_empty());
    }
    assert_eq!(d.get("p"), Some(&start[0]));
}

#[test]
fn a_server_grants_locks() {
    let mut d = db(&[]);
    let r = lock_repo(true, &mut d, &req("p", "me", "t1"), 10);
    assert_eq!((r.status, r.save, r.resp.ok, r.resp.message.as_str()), (200, true, true, "locked"));
    assert_eq!(r.resp.locks.len(), 1);
    let r = lock_repo(true, &mut d, &req("p", "you", "t2"), 20);
    assert_eq!((r.status, r.save, r.resp.message.as_str()), (409, false, "already locked by me"));
    let r = lock_repo(true, &mut d, &req("p", "me", "t3"), 30);
    assert_eq!((r.status, r.save), (200, true));
    assert_eq!(d.get("p").unwrap().token, "t3");
    assert_eq!(d.get("p").unwrap().ts, 30);
    let r = lock_repo(true, &mut d, &req("p", "you", "t2"), 91);
    assert_eq!((r.status, d.get("p").unwrap().owner.as_str()), (200, "you"));
    let r = list_locks_repo(true, &mut d, 91);
    assert_eq!((r.status, r.resp.message.as_str(), r.resp.locks.len()), (200, "ok", 1));
}

#[test]
fn a_server_asks_for_owner_and_token() {
    let mut d = db(&[entry("p", "me", 0, 60)]);
    for q in [req("p", "you", "tok"), req("p", "me", "bad")] {
        let r = unlock_repo(true, &mut d, &q, 1);
        assert_eq!((r.status, r.save, r.resp.message.as_str()), (403, false, "bad owner or token"));
        let r = renew_repo(true, &mut d, &q, 1);
        assert_eq!((r.status, r.save, r.resp.message.as_str()), (403, false, "bad owner or token"));
    }
    let r = renew_repo(true, &mut d, &req("q", "me", "tok"), 1);
    assert_eq!((r.status, r.resp.message.as_str()), (404, "not locked"));
    let r = renew_repo(true, &mut d, &req("p", "me", "tok"), 7);
    assert_eq!((r.status, r.save, r.resp.message.as_str()), (200, true, "renewed"));
    assert_eq!(d.get("p"), Some(&entry("p", "me", 7, 60)));
    let r = unlock_repo(true, &mut d, &req("p", "me", "tok"), 8);
    assert_eq!((r.status, r.save, r.resp.message.as_str()), (200, true, "unlocked"));
    assert!(d.is_empty());
    let r = unlock_repo(true, &mut d, &req("p", "me", "tok"), 8);
    assert_eq!((r.status, r.save), (200, true));
}

#[test]
fn only_the_token_is_let_in_where_there_is_one() {
    let token = Some("secret".to_string());
    let h = |s: &str| Some(s.to_string());
    assert!(auth_ok(&h("Bearer secret"), &token));
    for bad in ["Bearer secreT", "Bearer secret ", "bearer secret", "secret", ""] {
        assert!(!auth_ok(&h(bad), &token));
    }
    assert!(!auth_ok(&None, &token));
    assert!(auth_ok(&None, &None));
    assert!(auth_ok(&h("Bearer secret"), &None));
    assert!(auth_ok(&None, &Some("".to_string())));
    assert!(ct_eq(b"", b"") && ct_eq(b"ab", b"ab") && !ct_eq(b"ab", b"ac") && !ct_eq(b"ab", b"abc"));
}

#[test]
fn owners_are_named() {
    let s = |x: &str| Some(x.to_string());
    assert_eq!(owner_string(&s("ann"), &s("u"), &None, &s("h"), &None), "ann");
    assert_eq!(owner_string(&s("  "), &s("u"), &s("v"), &s("h"), &s("c")), "u@h");
    assert_eq!(owner_string(&None, &None, &s("v"), &None, &s("c")), "v@c");
    assert_eq!(owner_string(&None, &None, &None, &None, &None), "unknown@host");
}
