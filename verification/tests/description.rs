use vlsp::description::{format_description, push_cross_ref};

#[test]
fn line_break_tags_become_empty_lines() {
    assert_eq!(format_description("a<br>b<br/>c<br />d"), "a\n\nb\n\nc\n\nd");
    assert_eq!(format_description("<br><br>"), "\n\n\n\n");
    assert_eq!(format_description("<br<br>>"), "<br\n\n>");
    assert_eq!(format_description("<BR> <br  >"), "<BR> <br  >");
}

#[test]
fn documented_cross_references() {
    assert_eq!(format_description("$!enums#EARMORTYPE!$"), "`EARMORTYPE` (in *enums*)");
    assert_eq!(format_description("$!monstats!$"), "*monstats*");
    assert_eq!(format_description("$!#Id!$"), "`Id`");
}

#[test]
fn text_around_references_is_kept() {
    assert_eq!(
        format_description("see $!a#b!$, then $!c!$<br>end"),
        "see `b` (in *a*), then *c*\n\nend"
    );
    assert_eq!(format_description("$$!x!$$"), "$*x*$");
    assert_eq!(format_description("$!x!!$"), "*x!*");
}

#[test]
fn empty_references_vanish() {
    assert_eq!(format_description("a$!!$b"), "ab");
    assert_eq!(format_description("a$!#!$b"), "ab");
    assert_eq!(format_description("$!file#!$"), "*file*");
    assert_eq!(format_description("$!f#a#b!$"), "`a#b` (in *f*)");
}

#[test]
fn unclosed_reference_stays_literal() {
    assert_eq!(format_description("a $!b"), "a $!b");
    assert_eq!(format_description("$!$"), "$!$");
    assert_eq!(format_description("$!a!$ $!b<br>c"), "*a* $!b\n\nc");
}

#[test]
fn plain_text_is_unchanged() {
    assert_eq!(format_description(""), "");
    assert_eq!(format_description("größer – !$ als"), "größer – !$ als");
}

#[test]
fn removed_tags_can_meet_only_through_references() {
    assert_eq!(format_description("<b$!#!$r>"), "<br>");
}

#[test]
fn cross_reference_is_appended() {
    let mut out = String::from("x ");
    push_cross_ref("a#b", &mut out);
    assert_eq!(out, "x `b` (in *a*)");
}
