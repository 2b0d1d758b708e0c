use cog_changelog::marker::find_first_marker;
use cog_changelog::marker::find_last_marker;
use cog_changelog::writer::updated_changelog;
use cog_changelog::Changelog;
use cog_changelog::CommitRecord;
use cog_changelog::RegistryEntry;
use cog_changelog::WriteError;
use cog_changelog::WriterMode;

fn commit(tag: &str, body: &str) -> CommitRecord {
    CommitRecord {
        tag: String::from(tag),
        body: String::from(body),
    }
}

fn entry(tag: &str, title: &str) -> RegistryEntry {
    RegistryEntry {
        tag: String::from(tag),
        title: String::from(title),
    }
}

fn feat_fix_registry() -> Vec<RegistryEntry> {
    vec![entry("feat", "Features"), entry("fix", "Bug Fixes")]
}

fn marker_count(s: &str) -> usize {
    s.match_indices("- - -").count()
}

#[test]
fn header_line_is_exact() {
    let log = Changelog {
        from: String::from("abcdef0123"),
        to: String::from("123456abcdef"),
        date: String::from("2024-01-01"),
        commits: vec![],
    };
    let out = log.markdown(&feat_fix_registry());
    assert_eq!(out, "\n## abcdef..123456 - 2024-01-01\n\n");
}

#[test]
fn end_to_end_scenario() {
    let log = Changelog {
        from: String::from("abcdef0123"),
        to: String::from("123456abcdef"),
        date: String::from("2024-01-01"),
        commits: vec![commit("fix", "bug fix body"), commit("feat", "feature body")],
    };
    let out = log.markdown(&feat_fix_registry());
    let expected = "\n## abcdef..123456 - 2024-01-01\n\n\
        \n### Features\n\nfeature body\n\
        \n### Bug Fixes\n\nbug fix body\n";
    assert_eq!(out, expected);
    let features_at = out.find("### Features").unwrap();
    let fixes_at = out.find("### Bug Fixes").unwrap();
    assert!(features_at < fixes_at);
}

#[test]
fn commits_sharing_a_tag_keep_their_order() {
    let log = Changelog {
        from: String::from("aaaaaaaa"),
        to: String::from("bbbbbbbb"),
        date: String::from("2024-06-30"),
        commits: vec![
            commit("fix", "first fix"),
            commit("feat", "a feature"),
            commit("fix", "second fix"),
        ],
    };
    let out = log.markdown(&feat_fix_registry());
    let expected = "\n## aaaaaa..bbbbbb - 2024-06-30\n\n\
        \n### Features\n\na feature\n\
        \n### Bug Fixes\n\nfirst fix\nsecond fix\n";
    assert_eq!(out, expected);
}

#[test]
fn unknown_tags_are_dropped() {
    let log = Changelog {
        from: String::from("aaaaaaaa"),
        to: String::from("bbbbbbbb"),
        date: String::from("2024-06-30"),
        commits: vec![commit("chore", "tidy up"), commit("fix", "a fix")],
    };
    let out = log.markdown(&feat_fix_registry());
    let expected = "\n## aaaaaa..bbbbbb - 2024-06-30\n\n\n### Bug Fixes\n\na fix\n";
    assert_eq!(out, expected);
    assert!(!out.contains("tidy up"));
}

#[test]
fn empty_registry_renders_header_only() {
    let log = Changelog {
        from: String::from("0123456789"),
        to: String::from("fedcba9876"),
        date: String::from("2030-12-31"),
        commits: vec![commit("fix", "a fix")],
    };
    let out = log.markdown(&vec![]);
    assert_eq!(out, "\n## 012345..fedcba - 2030-12-31\n\n");
}

#[test]
fn matching_nothing_emits_no_section() {
    let log = Changelog {
        from: String::from("aaaaaaaa"),
        to: String::from("bbbbbbbb"),
        date: String::from("2024-06-30"),
        commits: vec![commit("feat", "a feature")],
    };
    let out = log.markdown(&feat_fix_registry());
    assert!(!out.contains("### Bug Fixes"));
    assert!(out.contains("### Features"));
}

#[test]
fn replace_mode_is_header_fragment_footer() {
    let fragment = "\n## aaaaaa..bbbbbb - 2024-01-01\n\n";
    let out = updated_changelog("stale content, fully ignored", fragment, &WriterMode::Replace)
        .unwrap();
    let mut expected = cog_changelog::header();
    expected.push_str(fragment);
    expected.push_str(&cog_changelog::footer());
    assert_eq!(out, expected);

    let from_empty = updated_changelog("", fragment, &WriterMode::Replace).unwrap();
    assert_eq!(from_empty, expected);
}

#[test]
fn header_and_footer_are_exact() {
    assert_eq!(
        cog_changelog::header(),
        "# Changelog\nAll notable changes to this project will be documented in this file. \
         See [conventional commits](https://www.conventionalcommits.org/) for commit \
         guidelines.\n\n- - -\n"
    );
    assert_eq!(
        cog_changelog::footer(),
        "- - -\n\nThis changelog was generated by [cocogitto](https://github.com/oknozor/cocogitto)."
    );
}

#[test]
fn missing_separator_fails_and_is_named() {
    let content = "# Changelog\nno separator anywhere\n";
    let prepend = updated_changelog(content, "\nfragment\n", &WriterMode::Prepend);
    assert_eq!(prepend, Err(WriteError::MissingSeparator));
    let append = updated_changelog(content, "\nfragment\n", &WriterMode::Append);
    assert_eq!(append, Err(WriteError::MissingSeparator));
}

#[test]
fn single_marker_append_frames_the_fragment() {
    let content = "# Changelog\n\n- - -\n";
    assert_eq!(marker_count(content), 1);
    let fragment = "\n## aaaaaa..bbbbbb - 2024-01-01\n\n\n### Features\n\na feature\n";

    let once = updated_changelog(content, fragment, &WriterMode::Append).unwrap();
    assert_eq!(marker_count(&once), 2);
    let first = once.find("- - -").unwrap();
    let last = once.rfind("- - -").unwrap();
    let between = &once[first + 5..last];
    assert!(between.contains(fragment));
    assert!(once.starts_with("# Changelog\n\n- - -"));

    let twice = updated_changelog(&once, "\nsecond fragment\n", &WriterMode::Append).unwrap();
    assert_eq!(marker_count(&twice), 3);
    let third = updated_changelog(&twice, "\nthird fragment\n", &WriterMode::Append).unwrap();
    assert_eq!(marker_count(&third), 4);
}

#[test]
fn single_marker_prepend_frames_the_fragment() {
    let content = "# Changelog\n\n- - -\nolder tail\n";
    let fragment = "\nnew fragment\n";
    let out = updated_changelog(content, fragment, &WriterMode::Prepend).unwrap();
    assert_eq!(out, "# Changelog\n\n- - -\nnew fragment\n\n- - -\nolder tail\n");
    assert_eq!(marker_count(&out), 2);
}

#[test]
fn prepend_and_append_pick_different_anchors() {
    let content = "head\n- - -\nmiddle\n- - -\ntail\n";
    let fragment = "\nX\n";
    let prepended = updated_changelog(content, fragment, &WriterMode::Prepend).unwrap();
    assert_eq!(prepended, "head\n- - -\nX\n\n- - -\nmiddle\n- - -\ntail\n");
    let appended = updated_changelog(content, fragment, &WriterMode::Append).unwrap();
    assert_eq!(appended, "head\n- - -\nmiddle\n- - -\nX\n\n- - -\ntail\n");
}

#[test]
fn marker_search_finds_first_and_last() {
    assert_eq!(find_first_marker("x- - -y- - -z"), Some(1));
    assert_eq!(find_last_marker("x- - -y- - -z"), Some(7));
    assert_eq!(find_first_marker("- - -"), Some(0));
    assert_eq!(find_last_marker("- - -"), Some(0));
    assert_eq!(find_first_marker("no marker"), None);
    assert_eq!(find_last_marker("no marker"), None);
    assert_eq!(find_first_marker(""), None);
    assert_eq!(find_first_marker("- - "), None);
}

#[test]
fn overlapping_markers_found_exactly() {
    // "- - - - -" holds overlapping occurrences at 0, 2 and 4
    assert_eq!(find_first_marker("- - - - -"), Some(0));
    assert_eq!(find_last_marker("- - - - -"), Some(4));
}

#[test]
fn replace_then_append_accumulates_fragments() {
    let frag1 = "\n## aaaaaa..bbbbbb - 2024-01-01\n\n\n### Features\n\nfirst feature\n";
    let doc1 = updated_changelog("", frag1, &WriterMode::Replace).unwrap();
    assert_eq!(marker_count(&doc1), 2);
    assert!(doc1.contains(frag1));

    let frag2 = "\n## bbbbbb..cccccc - 2024-02-01\n\n\n### Bug Fixes\n\na fix\n";
    let doc2 = updated_changelog(&doc1, frag2, &WriterMode::Append).unwrap();
    assert_eq!(marker_count(&doc2), 3);
    assert!(doc2.contains(frag1));
    assert!(doc2.contains(frag2));
    assert!(doc2.ends_with(
        "- - -\n\nThis changelog was generated by [cocogitto](https://github.com/oknozor/cocogitto)."
    ));
}

#[test]
fn multi_line_bodies_are_kept_verbatim() {
    let log = Changelog {
        from: String::from("abcdefab"),
        to: String::from("12345678"),
        date: String::from("2025-05-05"),
        commits: vec![commit("feat", "line one\nline two")],
    };
    let out = log.markdown(&feat_fix_registry());
    assert_eq!(
        out,
        "\n## abcdef..123456 - 2025-05-05\n\n\n### Features\n\nline one\nline two\n"
    );
}
