use impact_core::{diff_fits, parse_change, parse_unified_diff, ChangeSpec, ParseChangeError};

fn rename(p: &str) -> ChangeSpec {
    ChangeSpec::Rename { path: p.to_string() }
}

#[test]
fn change_rename_forms() {
    assert_eq!(parse_change("rename m::a"), Ok(rename("m::a")));
    assert_eq!(parse_change("  rename   m::a  to  m::b "), Ok(rename("m::a")));
    assert_eq!(parse_change("rename\tm::a\n"), Ok(rename("m::a")));
}

#[test]
fn change_remove_forms() {
    assert_eq!(
        parse_change("remove variant billing::PaymentStatus::Failed"),
        Ok(ChangeSpec::RemoveVariant {
            enum_path: "billing::PaymentStatus".to_string(),
            variant: "Failed".to_string()
        })
    );
    assert_eq!(
        parse_change("remove field billing::Payment.amount"),
        Ok(ChangeSpec::RemoveField { type_path: "billing::Payment".to_string(), field: "amount".to_string() })
    );
    assert_eq!(parse_change("remove m::f"), Ok(ChangeSpec::RemoveSymbol { path: "m::f".to_string() }));
    assert_eq!(
        parse_change("change signature of m::f"),
        Ok(ChangeSpec::SignatureChange { path: "m::f".to_string() })
    );
}

#[test]
fn change_rejects_what_the_grammar_does_not_hold() {
    for bad in [
        "",
        "rename",
        "rename a b",
        "rename a into b",
        "remove variant NoSeparator",
        "remove field NoDot",
        "change signature m::f",
        "delete m::f",
    ] {
        assert_eq!(parse_change(bad), Err(ParseChangeError { input: bad.to_string() }), "{bad:?}");
    }
}

#[test]
fn change_remove_variant_splits_at_the_last_separator() {
    assert_eq!(
        parse_change("remove variant a::b::C"),
        Ok(ChangeSpec::RemoveVariant { enum_path: "a::b".to_string(), variant: "C".to_string() })
    );
    // Two words only: the removal of a symbol that happens to be called `variant`.
    assert!(matches!(parse_change("remove variant"), Ok(ChangeSpec::RemoveSymbol { .. })));
}

#[test]
fn change_target_paths() {
    assert_eq!(rename("m::a").target_path(), "m::a");
    let v = ChangeSpec::RemoveVariant { enum_path: "billing::PaymentStatus".to_string(), variant: "Failed".to_string() };
    assert_eq!(v.target_path(), "PaymentStatus::Failed");
    let w = ChangeSpec::RemoveVariant { enum_path: "Status".to_string(), variant: "Done".to_string() };
    assert_eq!(w.target_path(), "Status::Done");
    let f = ChangeSpec::RemoveField { type_path: "billing::Payment".to_string(), field: "amount".to_string() };
    assert_eq!(f.target_path(), "billing::Payment");
}

fn touched(diff: &str) -> Vec<(String, Vec<std::ops::Range<usize>>)> {
    assert!(diff_fits(diff));
    parse_unified_diff(diff).files
}

#[test]
fn diff_hunks_on_the_new_side() {
    let diff = "diff --git a/src/lib.rs b/src/lib.rs\n\
                index 1..2 100644\n\
                --- a/src/lib.rs\n\
                +++ b/src/lib.rs\n\
                @@ -1,3 +10,4 @@ fn main\n\
                 context\n\
                -old\n\
                +new\n\
                @@ -20 +30 @@\n";
    assert_eq!(touched(diff), vec![("src/lib.rs".to_string(), vec![10..14, 30..31])]);
}

#[test]
fn diff_zero_count_and_zero_start_touch_one_line() {
    let diff = "+++ b/a.go\n@@ -5,2 +4,0 @@\n@@ -1 +0,0 @@\n";
    assert_eq!(touched(diff), vec![("a.go".to_string(), vec![4..5, 1..2])]);
}

#[test]
fn diff_skips_deleted_files_and_hunks_before_a_header() {
    let diff = "@@ -1 +1 @@\n+++ /dev/null\n@@ -1,2 +1,2 @@\n+++ b/keep.rs\n@@ -3 +3,2 @@\n";
    assert_eq!(touched(diff), vec![("keep.rs".to_string(), vec![3..5])]);
}

#[test]
fn diff_groups_hunks_per_file_in_first_seen_order() {
    let diff = "+++ b/x.rs\n@@ -1 +1 @@\n+++ a/y.rs\n@@ -2 +2 @@\n+++ x.rs\t2024-01-01\n@@ -7 +7,3 @@\n";
    assert_eq!(
        touched(diff),
        vec![("x.rs".to_string(), vec![1..2, 7..10]), ("y.rs".to_string(), vec![2..3])]
    );
}

#[test]
fn diff_with_crlf_lines() {
    let diff = "+++ b/w.rs\r\n@@ -1 +2,2 @@\r\n";
    assert_eq!(touched(diff), vec![("w.rs".to_string(), vec![2..4])]);
}

#[test]
fn diff_ignores_malformed_hunks() {
    let diff = "+++ b/m.rs\n@@ -1 nothing @@\n@@ -1 +x,2 @@\n@@ -1 +3,y @@\n@@ -1 +4 @@\n";
    assert_eq!(touched(diff), vec![("m.rs".to_string(), vec![4..5])]);
}

#[test]
fn diff_of_nothing_is_empty() {
    assert!(touched("").is_empty());
    assert!(touched("just some text\n+++ \n").is_empty());
}

#[test]
fn diff_whose_range_overflows_is_refused_by_the_check() {
    let huge = format!("+++ b/big.rs\n@@ -1 +{},2 @@\n", usize::MAX);
    assert!(!diff_fits(&huge));
}

#[test]
fn change_words_split_on_unicode_whitespace() {
    assert_eq!(parse_change("rename\u{3000}m::a"), Ok(rename("m::a")));
    assert_eq!(parse_change("rename\u{a0}m::a\u{2028}to\u{85}m::b"), Ok(rename("m::a")));
    assert!(parse_change("rename\u{200b}m::a").is_err());
}
