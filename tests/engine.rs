use config_sync::config::{config_dir, Config, ConfigPair};
use config_sync::diff::diff;
use config_sync::lines::{join_lines, tokenize};
use config_sync::patch::{apply, Hunk, Op, Patch};
use config_sync::sync::{sync_pair, sync_text, SyncError};

fn lines(v: &[&str]) -> Vec<Vec<u8>> {
    v.iter().map(|s| s.as_bytes().to_vec()).collect()
}

fn shape(p: &Patch) -> Vec<(Op, Vec<Vec<u8>>)> {
    p.hunks.iter().map(|h: &Hunk| (h.op, h.lines.clone())).collect()
}

#[test]
fn tokenize_empty_text_has_no_lines() {
    assert!(tokenize(b"").is_empty());
}

#[test]
fn tokenize_keeps_newlines() {
    assert_eq!(tokenize(b"a\nb\n"), lines(&["a\n", "b\n"]));
    assert_eq!(tokenize(b"a\nb"), lines(&["a\n", "b"]));
    assert_eq!(tokenize(b"\n\n"), lines(&["\n", "\n"]));
}

#[test]
fn tokenize_keeps_carriage_returns() {
    assert_eq!(tokenize(b"a\r\nb\n"), lines(&["a\r\n", "b\n"]));
}

#[test]
fn join_gives_back_the_text() {
    for t in ["", "a", "a\n", "a\nb", "x\n\ny\r\n"] {
        assert_eq!(join_lines(&tokenize(t.as_bytes())), t.as_bytes().to_vec());
    }
}

#[test]
fn scenario_middle_line_replaced() {
    let dest = b"a\nb\nc\n";
    let source = b"a\nx\nc\n";
    let p = diff(dest, source);
    assert_eq!(
        shape(&p),
        vec![
            (Op::Equal, lines(&["a\n"])),
            (Op::Delete, lines(&["b\n"])),
            (Op::Insert, lines(&["x\n"])),
            (Op::Equal, lines(&["c\n"])),
        ]
    );
    let out = apply(&tokenize(dest), &p).unwrap();
    assert_eq!(join_lines(&out), source.to_vec());
}

#[test]
fn identity_patch_is_all_equal() {
    let t = b"one\ntwo\nthree\n";
    let p = diff(t, t);
    assert_eq!(shape(&p), vec![(Op::Equal, lines(&["one\n", "two\n", "three\n"]))]);
    assert_eq!(apply(&tokenize(t), &p).unwrap(), tokenize(t));
}

#[test]
fn identity_of_empty_text_is_empty_patch() {
    assert!(diff(b"", b"").hunks.is_empty());
}

#[test]
fn empty_base_gives_one_insert() {
    let p = diff(b"", b"abc\n");
    assert_eq!(shape(&p), vec![(Op::Insert, lines(&["abc\n"]))]);
}

#[test]
fn empty_target_gives_one_delete() {
    let p = diff(b"abc\n", b"");
    assert_eq!(shape(&p), vec![(Op::Delete, lines(&["abc\n"]))]);
}

#[test]
fn reconstruction_on_several_pairs() {
    let texts = ["", "a\n", "a\nb\nc\n", "c\nb\na\n", "a\na\na\n", "x\ny", "a\r\nb\r\n", "a\nb\nb\nc\nd\n"];
    for a in texts {
        for b in texts {
            let p = diff(a.as_bytes(), b.as_bytes());
            let out = apply(&tokenize(a.as_bytes()), &p).unwrap();
            assert_eq!(out, tokenize(b.as_bytes()), "{:?} -> {:?}", a, b);
        }
    }
}

#[test]
fn diff_is_deterministic() {
    let a = b"a\nb\na\nb\nc\n";
    let b = b"b\na\nc\na\n";
    assert_eq!(shape(&diff(a, b)), shape(&diff(a, b)));
}

#[test]
fn conflict_on_changed_line() {
    let p = diff(b"a\nb\nc\n", b"a\nx\nc\n");
    let changed = lines(&["a\n", "B\n", "c\n"]);
    let c = apply(&changed, &p).unwrap_err();
    assert_eq!(c.line, 1);
    assert_eq!(c.expected, b"b\n".to_vec());
    assert_eq!(c.actual, Some(b"B\n".to_vec()));
}

#[test]
fn conflict_on_changed_equal_line() {
    let p = diff(b"a\nb\nc\n", b"a\nx\nc\n");
    let changed = lines(&["a\n", "b\n", "C\n"]);
    let c = apply(&changed, &p).unwrap_err();
    assert_eq!(c.line, 2);
    assert_eq!(c.expected, b"c\n".to_vec());
    assert_eq!(c.actual, Some(b"C\n".to_vec()));
}

#[test]
fn conflict_on_short_base() {
    let p = diff(b"a\nb\n", b"a\n");
    let c = apply(&lines(&["a\n"]), &p).unwrap_err();
    assert_eq!(c.line, 1);
    assert_eq!(c.expected, b"b\n".to_vec());
    assert_eq!(c.actual, None);
}

#[test]
fn apply_keeps_base_lines_past_the_patch() {
    let p = Patch { hunks: vec![Hunk { op: Op::Equal, lines: lines(&["a\n"]) }] };
    assert_eq!(apply(&lines(&["a\n", "b\n"]), &p).unwrap(), lines(&["a\n", "b\n"]));
}

#[test]
fn diff_aligns_rather_than_replacing() {
    let p = diff(b"1\n2\n3\n4\n5\n", b"1\n2\n3\n4\n6\n");
    assert_eq!(
        shape(&p),
        vec![
            (Op::Equal, lines(&["1\n", "2\n", "3\n", "4\n"])),
            (Op::Delete, lines(&["5\n"])),
            (Op::Insert, lines(&["6\n"])),
        ]
    );
}

#[test]
fn sync_makes_destination_equal_to_source() {
    let out = sync_text(b"a\nx\nc\n", b"a\nb\nc\n").unwrap();
    assert_eq!(out, b"a\nx\nc\n".to_vec());
}

#[test]
fn sync_twice_leaves_destination_unchanged() {
    let source = b"k = 1\nv = 2\n";
    let first = sync_text(source, b"k = 0\n").unwrap();
    let second = sync_text(source, &first).unwrap();
    assert_eq!(second, first);
    assert_eq!(second, source.to_vec());
}

#[test]
fn missing_destination_is_a_read_failure() {
    let r = sync_pair(
        "src.toml".to_string(),
        "dst.toml".to_string(),
        Ok(b"a\n".to_vec()),
        Err("not found".to_string()),
    );
    match r {
        Err(SyncError::ReadFailure { path, cause }) => {
            assert_eq!(path, "dst.toml");
            assert_eq!(cause, "not found");
        }
        _ => panic!("expected a read failure"),
    }
}

#[test]
fn missing_source_is_a_read_failure() {
    let r = sync_pair("src.toml".to_string(), "dst.toml".to_string(), Err("gone".to_string()), Err("gone too".to_string()));
    match r {
        Err(SyncError::ReadFailure { path, .. }) => assert_eq!(path, "src.toml"),
        _ => panic!("expected a read failure"),
    }
}

#[test]
fn sync_pair_returns_source_text() {
    let r = sync_pair("s".to_string(), "d".to_string(), Ok(b"new\n".to_vec()), Ok(b"old\n".to_vec()));
    assert_eq!(r.unwrap(), b"new\n".to_vec());
}

fn pair(s: &str, d: &str) -> ConfigPair {
    ConfigPair { source: s.to_string(), destination: d.to_string() }
}

#[test]
fn config_pairs_in_field_order() {
    let mut c = Config::empty();
    assert!(c.clone().pairs().is_empty());
    c.ssh_config = Some(pair("s1", "d1"));
    c.nu_config = Some(pair("s2", "d2"));
    assert_eq!(c.pairs(), vec![pair("s2", "d2"), pair("s1", "d1")]);
}

#[test]
fn config_dir_prefers_the_users_choice() {
    assert_eq!(config_dir(Some("/u".to_string()), Some("/h".to_string())), Some("/u".to_string()));
    assert_eq!(config_dir(None, Some("/h".to_string())), Some("/h".to_string()));
    assert_eq!(config_dir(None, None), None);
}
