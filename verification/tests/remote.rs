use pop_vcs::bundle::{apply_bundle_local, bundle_seq, make_bundle_from_repo, Content};
use pop_vcs::commands::{
    can_shard_all, checkout_remote, ensure_object_present, push_http, push_ssh, CheckoutError, Fetch, PushStep,
};
use pop_vcs::commits::{
    advance_head, append_reflog, branch_name_ok, checkout_head, current_place, diff_from, id_of, initial_commit,
    initial_head, message_ok, new_commit, next_seq, parse_seq, pick_parent, rebased_commit, ref_text, seq_lock_wait,
    seq_text, HeadMove, Place,
};
use pop_vcs::model::{json_size_ok, Commit, Config, Head, ReflogEntry, RemoteBundle};
use pop_vcs::remote::{
    auth_header, build_python_apply_script, mkdir_script, object_url, parse_remote, printed_bytes, pull_script,
    pull_url, push_url, remote_object_path, remote_repo_dir, sh_quote, ssh_get_script, ssh_put_script, RemoteError,
    RemoteSpec,
};
use pop_vcs::report::{log_entry, print_diff, reflog_cmd, status_head};
use pop_vcs::server::{
    check_rate_limit, done_status, get_obj, list_repos, normalize_bind_addr, object_refusal, pull_refusal, pull_repo,
    push_refusal, put_obj, repo_name_ok, serve_addr, Found, Limiter, PutStep,
};
use pop_vcs::strmap::{StrMap, StrSet};

fn strings(v: &[&str]) -> Vec<String> {
    v.iter().map(|s| s.to_string()).collect()
}

fn some(s: &str) -> Option<String> {
    Some(s.to_string())
}

fn commit(id: &str, layers: usize) -> Commit {
    Commit {
        id: id.to_string(),
        parents: strings(&["p1", "p2"]),
        message: "msg".to_string(),
        seq: 3,
        base_root: "base".to_string(),
        layers: (0..layers).map(|i| format!("l{}", i)).collect(),
        effective_root: "eff".to_string(),
        ts: -5,
    }
}

#[test]
fn addresses_name_remote_repositories() {
    let http = parse_remote("http://h:1//", "r", &some("t"), &some("/x")).unwrap();
    assert_eq!(http, RemoteSpec::Http { base: "http://h:1".to_string(), repo: "r".to_string(), token: some("t") });
    let ssh = |root: &str| RemoteSpec::Ssh { user_host: "u@h".to_string(), root: root.to_string(), repo: "r".to_string() };
    assert_eq!(parse_remote("ssh://u@h:/srv/pop", "r", &None, &None), Ok(ssh("/srv/pop")));
    assert_eq!(parse_remote("ssh://u@h:///srv", "r", &None, &None), Ok(ssh("/srv")));
    assert_eq!(parse_remote("ssh://ssh://u@h:/a:b", "r", &None, &None), Ok(ssh("/a:b")));
    assert_eq!(parse_remote("ssh://u@h:rel", "r", &None, &some("/abs")), Ok(ssh("/abs")));
    assert_eq!(parse_remote("ssh://u@h", "r", &None, &some("/abs")), Err(RemoteError::NoRoot));
    assert_eq!(
        parse_remote("ssh://u@h:rel", "r", &None, &None),
        Err(RemoteError::RelativeRoot { root: "rel".to_string() })
    );
    assert_eq!(
        parse_remote("ssh://u@h:", "r", &None, &None),
        Err(RemoteError::RelativeRoot { root: "".to_string() })
    );
}

#[test]
fn addresses_on_a_server() {
    assert_eq!(pull_url("http://h/", "r"), "http://h/r/r/pull");
    assert_eq!(push_url("http://h", "r"), "http://h/r/r/push");
    assert_eq!(object_url("http://h", "r", "abc"), "http://h/r/r/obj/abc");
    assert_eq!(auth_header("t"), "authorization: Bearer t");
    assert_eq!(remote_repo_dir("/srv//", "r"), "/srv/r/.pop");
    assert_eq!(remote_object_path("/srv/r/.pop", "abcd"), "/srv/r/.pop/objects/ab/abcd");
}

#[test]
fn words_are_quoted_for_a_shell() {
    assert_eq!(sh_quote("a b"), "'a b'");
    assert_eq!(sh_quote(""), "''");
    assert_eq!(sh_quote("it's"), "'it'\"'\"'s'");
    assert_eq!(sh_quote("$(x)\"`"), "'$(x)\"`'");
}

#[test]
fn scripts_hold_what_they_are_about() {
    assert_eq!(
        ssh_put_script("/p", b"foo"),
        "\nset -e\np='/p'\nmkdir -p \"$(dirname \"$p\")\"\npython3 - <<'PY' || python - <<'PY'\nimport base64, os\np = '/p'\nb = base64.b64decode('Zm9v'.encode(\"ascii\"))\nwith open(p, \"wb\") as f:\n    f.write(b)\nPY\n"
    );
    assert_eq!(
        ssh_get_script("/p"),
        "\nset -e\np='/p'\npython3 - <<'PY' || python - <<'PY'\nimport base64, sys\np = '/p'\nwith open(p, \"rb\") as f:\n    sys.stdout.write(base64.b64encode(f.read()).decode(\"ascii\"))\nPY\n"
    );
    assert_eq!(
        mkdir_script("/d"),
        "set -e; mkdir -p \"/d/objects\" \"/d/commits\" \"/d/refs/heads\""
    );
    let pull = pull_script("/d");
    assert!(pull.starts_with("\nset -e\npython3 - <<'PY' || python - <<'PY'\nimport os, json, base64, sys\nrp = '/d'\ndef rj(p, default):\n"));
    assert!(pull.contains("bundle = {\"commits\": [], \"refs\": {}, \"head\": rj(os.path.join(rp,\"HEAD.json\"),{})"));
    assert!(pull.contains("bundle[\"refs\"][f\"refs/heads/{name}\"]"));
    assert!(pull.ends_with("sys.stdout.write(base64.b64encode(data).decode(\"ascii\"))\nPY\n"));
    let apply = build_python_apply_script("'/d'");
    assert!(apply.starts_with("\nset -e\npython3 - <<'PY' || python - <<'PY'\nimport json, os\nrp = '/d'\nwith open(os.path.join(rp, \"bundle.json\")"));
    assert!(apply.contains("wj(os.path.join(rp, \"commits\", f\"{c['id']}.json\"), c)"));
    assert!(apply.ends_with("    f.write(str(b.get(\"seq\", 0)) + \"\\n\")\nPY\n"));
    assert_eq!(printed_bytes(" Zm9v\n"), Some(b"foo".to_vec()));
    assert_eq!(printed_bytes("Traceback"), None);
}

#[test]
fn a_push_to_a_server_sends_objects_and_the_bundle() {
    let mut need = StrSet::new();
    for h in ["bb1", "aa1", "x", ""] {
        need.insert(h.to_string());
    }
    let steps = push_http("http://h", "r", &need);
    let mut sent = vec![];
    for s in &steps {
        match s {
            PushStep::SendObject { hash, to } => sent.push(format!("{} {}", hash, to)),
            PushStep::SendBundle { to } => sent.push(to.clone()),
            PushStep::Run { .. } => panic!("nothing is run"),
        }
    }
    assert_eq!(
        sent,
        strings(&["aa1 http://h/r/r/obj/aa1", "bb1 http://h/r/r/obj/bb1", "http://h/r/r/push"])
    );
}

#[test]
fn a_push_over_ssh_makes_sends_and_takes_in() {
    let mut need = StrSet::new();
    need.insert("bb1".to_string());
    need.insert("x".to_string());
    assert!(can_shard_all(&need));
    let steps = push_ssh("/d", &need);
    assert_eq!(steps.len(), 4);
    assert!(matches!(&steps[0], PushStep::Run { script } if script == &mkdir_script("/d")));
    assert!(matches!(&steps[1], PushStep::SendObject { hash, to } if hash == "bb1" && to == "/d/objects/bb/bb1"));
    assert!(matches!(&steps[2], PushStep::SendBundle { to } if to == "/d/bundle.json"));
    assert!(matches!(&steps[3], PushStep::Run { script } if script == &build_python_apply_script("'/d'")));
    need.insert("aé".to_string());
    assert!(!can_shard_all(&need));
}

#[test]
fn a_checkout_may_turn_to_a_remote_repository() {
    assert!(matches!(checkout_remote(&None, &some("r"), &None, &None), Ok(None)));
    assert!(matches!(checkout_remote(&some("http://h"), &None, &None, &None), Err(CheckoutError::NoRepo)));
    assert!(matches!(
        checkout_remote(&some("ssh://h"), &some("r"), &None, &None),
        Err(CheckoutError::Remote(RemoteError::NoRoot))
    ));
    let spec = match checkout_remote(&some("ssh://u@h:/d"), &some("r"), &None, &None) {
        Ok(s) => s,
        Err(_) => panic!("refused"),
    };
    assert!(matches!(
        ensure_object_present("abc", &spec),
        Fetch::Ssh { user_host, path } if user_host == "u@h" && path == "/d/r/.pop/objects/ab/abc"
    ));
    assert!(matches!(ensure_object_present("abc", &None), Fetch::Nowhere));
    let http = parse_remote("http://h/", "r", &some("t"), &None).unwrap();
    assert!(matches!(
        ensure_object_present("abc", &Some(http)),
        Fetch::Http { url, token } if url == "http://h/r/r/obj/abc" && token == some("t")
    ));
}

#[test]
fn sequence_numbers() {
    assert_eq!(parse_seq("12\n"), Some(12));
    assert_eq!(parse_seq("x"), None);
    assert_eq!(seq_text(7), "7\n");
    assert_eq!(parse_seq(&seq_text(u64::MAX)), Some(u64::MAX));
    assert_eq!(next_seq(41), 42);
    assert_eq!(next_seq(u64::MAX), 0);
    assert_eq!(id_of(42), "cmt_0000042");
    assert_eq!(id_of(123456789), "cmt_123456789");
    assert_eq!(seq_lock_wait(0, 1), Some(5));
    assert_eq!(seq_lock_wait(30_000_000_000, 19), Some(95));
    assert_eq!(seq_lock_wait(1, 20), Some(100));
    assert_eq!(seq_lock_wait(1, u64::MAX), Some(100));
    assert_eq!(seq_lock_wait(30_000_000_001, 3), None);
}

#[test]
fn commits_are_stacked_and_squashed() {
    let c = new_commit(&commit("old", 31), "old", "m", "new", "root", 9, 77);
    assert_eq!((c.id.as_str(), c.parents.clone()), ("cmt_0000009", strings(&["old"])));
    assert_eq!((c.layers.len(), c.layers[31].as_str()), (32, "new"));
    assert_eq!((c.base_root.as_str(), c.effective_root.as_str()), ("base", "root"));
    assert_eq!((c.message.as_str(), c.seq, c.ts), ("m", 9, 77));
    let s = new_commit(&commit("old", 32), "old", "m", "new", "root", 9, 77);
    assert!(s.layers.is_empty());
    assert_eq!((s.base_root.as_str(), s.effective_root.as_str()), ("root", "root"));
    let r = rebased_commit(&commit("old", 3), "on", "root", 10, 78);
    assert_eq!((r.parents.clone(), r.message.as_str(), r.layers.len()), (strings(&["on"]), "msg", 0));
    assert_eq!((r.base_root.as_str(), r.effective_root.as_str(), r.seq), ("root", "root", 10));
    let i = initial_commit("empty", 1);
    assert_eq!((i.id.as_str(), i.message.as_str(), i.seq, i.parents.len()), ("cmt_0000000", "initial", 0, 0));
    assert!(message_ok(" x ") && !message_ok(" \n"));
}

#[test]
fn head_moves() {
    let on = initial_head();
    assert_eq!(on, Head { reference: some("refs/heads/main"), detached: None });
    assert!(matches!(current_place(&on), Place::Branch(r) if r == "refs/heads/main"));
    assert!(matches!(advance_head(&on, "c"), HeadMove::Branch { reference } if reference == "refs/heads/main"));
    let off = Head { reference: some("r"), detached: some("c1") };
    assert!(matches!(current_place(&off), Place::Commit(id) if id == "c1"));
    assert!(matches!(
        advance_head(&off, "c2"),
        HeadMove::Head(h) if h == (Head { reference: some("r"), detached: some("c2") })
    ));
    assert!(matches!(current_place(&Head::blank()), Place::Nowhere));
    assert!(matches!(advance_head(&Head::blank(), "c"), HeadMove::Invalid));
    assert_eq!(checkout_head("dev", true, "c"), Head { reference: some("refs/heads/dev"), detached: None });
    assert_eq!(checkout_head("c", false, "c"), Head { reference: None, detached: some("c") });
    assert!(branch_name_ok("feature-x") && branch_name_ok("") && !branch_name_ok("a/b") && !branch_name_ok("a\\b"));
    assert_eq!(ref_text("c1"), "c1\n");
    assert_eq!(diff_from(&commit("a", 0), "a"), "p1");
    assert_eq!(diff_from(&initial_commit("e", 0), "a"), "a");
    assert_eq!(pick_parent(&commit("a", 0)), some("p1"));
    assert_eq!(pick_parent(&initial_commit("e", 0)), None);
}

#[test]
fn reports_are_worded() {
    let d = pop_vcs::changes::Diff { added: strings(&["a"]), modified: strings(&["m", "n"]), deleted: strings(&["d"]) };
    assert_eq!(print_diff("\nStaged:", &d), strings(&["\nStaged:", "  + a", "  ~ m", "  ~ n", "  - d"]));
    let none = pop_vcs::changes::Diff { added: vec![], modified: vec![], deleted: vec![] };
    assert_eq!(print_diff("", &none), strings(&["", "  (none)"]));
    let mut cfg = Config::blank();
    assert_eq!(status_head(&initial_head(), &cfg), strings(&["On: refs/heads/main", "Sparse: (none)"]));
    cfg.sparse = strings(&["a/**", "b/**"]);
    let off = Head { reference: None, detached: some("c1") };
    assert_eq!(status_head(&off, &cfg), strings(&["On: detached@c1", "Sparse: a/**, b/**"]));
    assert_eq!(status_head(&Head::blank(), &Config::blank())[0], "On: HEAD");
    assert_eq!(
        log_entry(&commit("c1", 2)),
        strings(&["c1  #3", "  msg", "  ts -5", "  layers 2  base base"])
    );
}

#[test]
fn the_reflog_is_told_from_its_end() {
    let mut log: Vec<ReflogEntry> = vec![];
    assert_eq!(reflog_cmd(&log), strings(&["(empty)"]));
    for i in 0..600 {
        append_reflog(&mut log, i, "a", "b", "commit");
    }
    let lines = reflog_cmd(&log);
    assert_eq!(lines.len(), 500);
    assert_eq!(lines[0], "ts 599  a -> b  commit");
    assert_eq!(lines[499], "ts 100  a -> b  commit");
}

#[test]
fn bundles_are_put_together_and_taken_in() {
    let b = make_bundle_from_repo(
        None,
        Some(initial_head()),
        None,
        &some(" 12\n"),
        &strings(&["main", "dev"]),
        &strings(&["c1\n", "c2\nrest"]),
        vec![commit("c1", 0), commit("c2", 1)],
    );
    assert_eq!((b.seq, b.refs.len(), b.commits.len()), (12, 2, 2));
    assert_eq!(b.refs.get("refs/heads/dev"), Some(&"c2".to_string()));
    assert_eq!((b.config.clone(), b.reflog.len()), (Config::blank(), 0));
    let writes = apply_bundle_local(&b);
    let paths: Vec<&str> = writes.iter().map(|w| w.path.as_str()).collect();
    assert_eq!(
        paths,
        vec![
            "commits/c1.json", "commits/c2.json", "refs/heads/dev", "refs/heads/main", "HEAD.json", "config.json",
            "reflog.json", "SEQ",
        ]
    );
    assert!(matches!(&writes[1].content, Content::Commit(1)));
    assert!(matches!(&writes[2].content, Content::Text(s) if s == "c2\n"));
    assert!(matches!(&writes[7].content, Content::Text(s) if s == "12\n"));
    assert_eq!(bundle_seq(&None), 0);
    assert_eq!(bundle_seq(&some("twelve")), 0);
}

#[test]
fn a_server_turns_requests_down() {
    assert_eq!(pull_refusal(false, "r"), Some(401));
    assert_eq!(pull_refusal(true, "../r"), Some(400));
    assert_eq!(pull_refusal(true, "r"), None);
    assert_eq!(push_refusal(false, "r", "r"), Some(401));
    assert_eq!(push_refusal(true, "r", "q"), Some(400));
    assert_eq!(push_refusal(true, "a/b", "a/b"), Some(400));
    assert_eq!(push_refusal(true, "r", "r"), None);
    assert_eq!(object_refusal(false, "r", "abc"), Some(401));
    assert_eq!(object_refusal(true, "r", "a"), Some(400));
    assert_eq!(object_refusal(true, "a\\b", "abc"), Some(400));
    assert_eq!(object_refusal(true, "r", "abc"), None);
    assert_eq!((done_status(true), done_status(false)), (200, 500));
    assert!(repo_name_ok("r.x") && repo_name_ok("") && !repo_name_ok(".."));
}

#[test]
fn a_server_lists_and_serves() {
    let r = list_repos(true, &strings(&["b", "a", "c", "a"]));
    assert_eq!((r.status, r.ok, r.repos), (200, true, strings(&["a", "a", "b", "c"])));
    let r = list_repos(false, &strings(&["b"]));
    assert_eq!((r.status, r.ok, r.repos), (401, false, vec![]));
    let b = RemoteBundle { seq: 5, ..RemoteBundle::blank() };
    let r = pull_repo(None, Some(b));
    assert_eq!((r.status, r.ok, r.bundle.seq), (200, true, 5));
    let r = pull_repo(None, None);
    assert_eq!((r.status, r.ok, r.bundle.seq), (200, true, 0));
    let r = pull_repo(Some(400), None);
    assert_eq!((r.status, r.ok), (400, false));
}

#[test]
fn objects_are_fetched_and_brought() {
    let r = get_obj(None, Found::Bytes(b"foo".to_vec()));
    assert_eq!((r.status, r.ok, r.bytes_b64.as_str()), (200, true, "Zm9v"));
    assert_eq!(get_obj(None, Found::Missing).status, 404);
    assert_eq!(get_obj(None, Found::Unreadable).status, 500);
    let r = get_obj(Some(401), Found::Bytes(b"foo".to_vec()));
    assert_eq!((r.status, r.ok, r.bytes_b64.as_str()), (401, false, ""));
    assert!(matches!(put_obj(None, false, "Zm9v"), PutStep::Write(b) if b == b"foo"));
    assert!(matches!(put_obj(None, false, "?"), PutStep::Reply(400)));
    assert!(matches!(put_obj(None, true, "?"), PutStep::Reply(200)));
    assert!(matches!(put_obj(Some(401), true, "Zm9v"), PutStep::Reply(401)));
}

#[test]
fn addresses_to_listen_on() {
    assert_eq!(normalize_bind_addr(" 8787 "), "0.0.0.0:8787");
    assert_eq!(normalize_bind_addr(":80"), "0.0.0.0:80");
    assert_eq!(normalize_bind_addr(""), "0.0.0.0:");
    assert_eq!(normalize_bind_addr(":"), "0.0.0.0:");
    assert_eq!(normalize_bind_addr("127.0.0.1:9"), "127.0.0.1:9");
    assert_eq!(normalize_bind_addr(":8x"), ":8x");
    assert_eq!(serve_addr(&some("1"), &some("2"), "3"), "0.0.0.0:1");
    assert_eq!(serve_addr(&None, &some(" 2 "), "3"), "0.0.0.0:2");
    assert_eq!(serve_addr(&None, &some("  "), "3"), "0.0.0.0:3");
    assert_eq!(serve_addr(&None, &None, "h:3"), "h:3");
}

#[test]
fn rates_are_limited() {
    let mut m: Limiter = StrMap::new();
    let second = 1_000_000_000u128;
    assert!(check_rate_limit(&mut m, "a", 0, 2));
    assert!(check_rate_limit(&mut m, "a", second, 2));
    assert!(!check_rate_limit(&mut m, "a", 2 * second, 2));
    assert!(check_rate_limit(&mut m, "b", 2 * second, 2));
    assert!(!check_rate_limit(&mut m, "a", 60 * second - 1, 2));
    assert!(check_rate_limit(&mut m, "a", 60 * second, 2));
    assert!(!check_rate_limit(&mut m, "c", 0, 0));
    assert_eq!(m.len(), 3);
}

#[test]
fn files_of_a_repository_have_a_limit() {
    assert!(json_size_ok(100 * 1024 * 1024) && !json_size_ok(100 * 1024 * 1024 + 1));
}
