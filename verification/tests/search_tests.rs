use synapt::search::app_indexer::{bgra_to_rgba, bundle_name, icon_cache_name, parse_desktop_content, AppIndexError};
use synapt::search::cache::AnswerCache;
use synapt::search::bloom::BloomFilter;
use synapt::search::calc::{looks_like_expression, parse_program, tokenize, CalcError, Op, Token};
use synapt::search::engine::{
    build_indexes, file_name_of, plan_query, FuzzyHit, QueryPlan, ResultSource, ResultType, SearchCollector, SearchHit,
};
use synapt::search::fuzzy::{common_prefix4, jaro_counts, levenshtein};
use synapt::search::index::{escape_query, escape_regex, text_query, wildcard_pattern};
use synapt::search::indexer::{entry_action, entry_files, should_emit_progress, EntryAction, EntryKind, MAX_FILE_SIZE_BYTES};
use synapt::search::trie::Trie;
use synapt::storage::{AppRow, FileRow};

/// Size a filter for a capacity and false-positive rate.
fn sized_filter(capacity: usize, fp_rate: f64) -> BloomFilter {
    let cap = capacity.max(1);
    let m = (-(cap as f64 * fp_rate.ln()) / std::f64::consts::LN_2.powi(2)).ceil() as usize;
    let m = m.max(1);
    let k = (((m as f64) / cap as f64) * std::f64::consts::LN_2).round().max(1.0) as usize;
    BloomFilter::with_sizing(cap, m, k)
}

// ---------------------------------------------------------------------------
// Trie

#[test]
fn insert_and_exact_get() {
    let mut t = Trie::new();
    t.insert("abc", "value-abc".to_string());
    assert_eq!(t.get("abc"), Some("value-abc"));
    assert_eq!(t.get("ab"), None);
    assert_eq!(t.get("abcd"), None);
}

#[test]
fn prefix_search_frequency_ordered() {
    let mut t = Trie::new();
    for _ in 0..3 {
        t.insert("report.pdf", "report.pdf".to_string());
    }
    t.insert("readme.md", "readme.md".to_string());
    let results = t.prefix_search("re", 10);
    assert_eq!(results.len(), 2);
    assert_eq!(results[0], "report.pdf");
    assert_eq!(results[1], "readme.md");
}

#[test]
fn prefix_search_empty_prefix_returns_all() {
    let mut t = Trie::new();
    t.insert("alpha", "alpha".to_string());
    t.insert("beta", "beta".to_string());
    let results = t.prefix_search("", 10);
    assert_eq!(results.len(), 2);
}

#[test]
fn prefix_search_no_match_returns_empty() {
    let mut t = Trie::new();
    t.insert("alpha", "alpha".to_string());
    assert!(t.prefix_search("zzz", 10).is_empty());
}

#[test]
fn remove_decrements_frequency() {
    let mut t = Trie::new();
    t.insert("a", "a".to_string());
    t.insert("a", "a".to_string());
    assert!(t.remove("a"));
    assert_eq!(t.get("a"), Some("a"));
    assert!(t.remove("a"));
    assert_eq!(t.get("a"), None);
}

#[test]
fn remove_nonexistent_returns_false() {
    let mut t = Trie::new();
    t.insert("alpha", "alpha".to_string());
    assert!(!t.remove("beta"));
}

#[test]
fn insert_same_key_twice_increments_frequency() {
    let mut t = Trie::new();
    t.insert("k", "k".to_string());
    t.insert("k", "k".to_string());
    t.insert("m", "m".to_string());
    assert_eq!(t.len(), 2);
    let results = t.prefix_search("", 10);
    assert_eq!(results[0], "k");
}

#[test]
fn len_tracks_unique_keys() {
    let mut t = Trie::new();
    t.insert("a", "a".to_string());
    t.insert("b", "b".to_string());
    t.insert("a", "a".to_string());
    assert_eq!(t.len(), 2);
}

#[test]
fn remove_right_after_insert_restores_the_trie() {
    let mut t = Trie::new();
    t.insert("keep", "k".to_string());
    t.insert("temp", "t".to_string());
    assert!(t.remove("temp"));
    assert_eq!(t.len(), 1);
    assert_eq!(t.get("temp"), None);
    assert_eq!(t.get("keep"), Some("k"));
}

#[test]
fn insert_keeps_the_first_value() {
    let mut t = Trie::new();
    t.insert("name", "first".to_string());
    t.insert("name", "second".to_string());
    assert_eq!(t.get("name"), Some("first"));
    assert_eq!(t.len(), 1);
}

#[test]
fn prefix_search_respects_the_limit() {
    let mut t = Trie::new();
    t.insert("aa", "1".to_string());
    t.insert("ab", "2".to_string());
    t.insert("ac", "3".to_string());
    assert_eq!(t.prefix_search("a", 2).len(), 2);
    assert!(t.is_empty() == false);
}

// ---------------------------------------------------------------------------
// Bloom filter

#[test]
fn inserted_term_always_may_contain_true() {
    let mut filter = sized_filter(100, 0.01);
    filter.insert("hello");
    assert!(filter.may_contain("hello"));
}

#[test]
fn uninserted_term_on_empty_filter_returns_false() {
    let filter = sized_filter(100, 0.01);
    assert!(!filter.may_contain("hello"));
}

#[test]
fn false_positive_rate_within_bounds() {
    let mut filter = sized_filter(1000, 0.01);
    for i in 0..1000 {
        filter.insert(&format!("inserted-term-{i}"));
    }
    let mut false_positives = 0;
    for i in 0..10000 {
        if filter.may_contain(&format!("absent-term-{i}")) {
            false_positives += 1;
        }
    }
    let rate = false_positives as f64 / 10000.0;
    assert!(rate < 0.02, "false positive rate {rate} exceeded bound");
}

#[test]
fn fnv1a_empty_is_14695981039346656037() {
    assert_eq!(BloomFilter::fnv1a(b""), 14695981039346656037);
}

#[test]
fn djb2_empty_is_5381() {
    assert_eq!(BloomFilter::djb2(b""), 5381);
}

#[test]
fn fnv1a_and_djb2_of_a_single_byte() {
    // FNV-1a: (offset ^ 'a') * prime, wrapping; DJB2: 5381 * 33 + 'a'.
    assert_eq!(BloomFilter::fnv1a(b"a"), 0xaf63dc4c8601ec8c);
    assert_eq!(BloomFilter::djb2(b"a"), 5381 * 33 + 97);
}

#[test]
fn sizing_clamps_to_one_bit_and_one_hash() {
    let f = BloomFilter::with_sizing(0, 0, 0);
    assert_eq!(f.bit_count(), 1);
    assert!(f.heap_bytes() >= 8);
}

// ---------------------------------------------------------------------------
// Levenshtein

#[test]
fn levenshtein_identical_is_0() {
    assert_eq!(levenshtein("kitten", "kitten"), 0);
}

#[test]
fn levenshtein_empty_vs_abc_is_3() {
    assert_eq!(levenshtein("", "abc"), 3);
}

#[test]
fn levenshtein_kitten_sitten_is_1() {
    assert_eq!(levenshtein("kitten", "sitten"), 1);
}

#[test]
fn levenshtein_kitten_sitting_is_3() {
    assert_eq!(levenshtein("kitten", "sitting"), 3);
}

#[test]
fn levenshtein_handles_unicode() {
    assert_eq!(levenshtein("cafe", "café"), 1);
}

#[test]
fn levenshtein_is_symmetric_on_an_example() {
    assert_eq!(levenshtein("flaw", "lawn"), levenshtein("lawn", "flaw"));
    assert_eq!(levenshtein("flaw", "lawn"), 2);
}

// ---------------------------------------------------------------------------
// Calculator text

#[test]
fn looks_like_detects_arithmetic_and_rejects_filenames() {
    assert!(looks_like_expression("2 + 2"));
    assert!(looks_like_expression("(3*4)/2"));
    assert!(!looks_like_expression("report.pdf"));
    assert!(!looks_like_expression("hello"));
}

#[test]
fn looks_like_treats_a_leading_minus_as_a_sign() {
    assert!(!looks_like_expression("-5"));
    assert!(looks_like_expression("5-3"));
    assert!(looks_like_expression("-5-3"));
}

#[test]
fn tokenize_splits_numbers_operators_and_parentheses() {
    let toks = tokenize("(1.5 + 20)*3").unwrap();
    assert_eq!(toks.len(), 7);
    assert!(matches!(&toks[0], Token::LParen));
    assert!(matches!(&toks[1], Token::Num(n) if n == "1.5"));
    assert!(matches!(&toks[2], Token::Plus));
    assert!(matches!(&toks[3], Token::Num(n) if n == "20"));
    assert!(matches!(&toks[4], Token::RParen));
    assert!(matches!(&toks[5], Token::Star));
    assert!(matches!(&toks[6], Token::Num(n) if n == "3"));
}

#[test]
fn tokenize_rejects_a_bad_number_and_an_unknown_character() {
    assert_eq!(tokenize("1.2.3"), Err(CalcError::ParseError("invalid number '1.2.3'".to_string())));
    assert_eq!(tokenize("."), Err(CalcError::ParseError("invalid number '.'".to_string())));
    assert_eq!(tokenize("abc"), Err(CalcError::ParseError("unexpected character 'a'".to_string())));
}

#[test]
fn calc_error_messages() {
    assert_eq!(CalcError::DivisionByZero.message(), "division by zero");
    assert_eq!(CalcError::ParseError("x".to_string()).message(), "parse error: x");
}

#[test]
fn parse_program_orders_steps_by_precedence() {
    let toks = tokenize("2 + 3 * 4").unwrap();
    let (ops, err) = parse_program(&toks);
    assert!(err.is_none());
    assert_eq!(ops.len(), 5);
    assert!(matches!(&ops[0], Op::Push(n) if n == "2"));
    assert!(matches!(&ops[1], Op::Push(n) if n == "3"));
    assert!(matches!(&ops[2], Op::Push(n) if n == "4"));
    assert!(matches!(&ops[3], Op::Mul));
    assert!(matches!(&ops[4], Op::Add));
}

#[test]
fn parse_program_reports_each_parse_error() {
    let (_, e) = parse_program(&tokenize("").unwrap());
    assert_eq!(e.as_deref(), Some("empty expression"));
    let (_, e) = parse_program(&tokenize("(1 + 2").unwrap());
    assert_eq!(e.as_deref(), Some("expected ')'"));
    let (_, e) = parse_program(&tokenize("1 2").unwrap());
    assert_eq!(e.as_deref(), Some("unexpected trailing input"));
    let (_, e) = parse_program(&tokenize("1 +").unwrap());
    assert_eq!(e.as_deref(), Some("unexpected end of input"));
    let (_, e) = parse_program(&tokenize("* 2").unwrap());
    assert_eq!(e.as_deref(), Some("unexpected token Star"));
}

#[test]
fn parse_program_keeps_the_steps_before_an_error() {
    // "1 / 0 )": the division is computed before the stray parenthesis is met.
    let (ops, e) = parse_program(&tokenize("1 / 0 )").unwrap());
    assert_eq!(e.as_deref(), Some("unexpected trailing input"));
    assert_eq!(ops.len(), 3);
    assert!(matches!(&ops[2], Op::Div));
}

#[test]
fn parse_program_negation_and_parentheses() {
    let (ops, e) = parse_program(&tokenize("-(2 - 1)").unwrap());
    assert!(e.is_none());
    assert_eq!(ops.len(), 4);
    assert!(matches!(&ops[2], Op::Sub));
    assert!(matches!(&ops[3], Op::Neg));
}

// ---------------------------------------------------------------------------
// Full-text query text

#[test]
fn escape_query_strips_special_chars() {
    let cleaned = escape_query("a+b^c(d)e~f:g[h]");
    for c in "+^()~:[]".chars() {
        assert!(!cleaned.contains(c), "should not contain {c}");
    }
}

#[test]
fn escape_regex_escapes_metacharacters() {
    let escaped = escape_regex("a.b*c(d)e");
    assert_eq!(escaped, r"a\.b\*c\(d\)e");
}

#[test]
fn escape_query_keeps_length_and_plain_characters() {
    assert_eq!(escape_query("a+b"), "a b");
    assert_eq!(escape_query("plain"), "plain");
}

#[test]
fn text_query_is_none_when_only_syntax_remains() {
    assert_eq!(text_query("  ()  "), None);
    assert_eq!(text_query(" report+final "), Some("report final".to_string()));
}

#[test]
fn wildcard_pattern_wraps_the_escaped_lowercase_query() {
    assert_eq!(wildcard_pattern("  Test "), Some(".*test.*".to_string()));
    assert_eq!(wildcard_pattern("(b)"), Some(r".*\(b\).*".to_string()));
    assert_eq!(wildcard_pattern("   "), None);
}

// ---------------------------------------------------------------------------
// Desktop entries

const FIREFOX: &str = "\
[Desktop Entry]
Name=Firefox
Name[fr]=Renard de feu
Exec=firefox %u
Icon=firefox
Type=Application";

#[test]
fn parse_desktop_returns_name_and_exec() {
    let app = parse_desktop_content(FIREFOX, "/usr/share/applications/firefox.desktop").expect("should parse");
    assert_eq!(app.name, "Firefox");
    assert_eq!(app.command, "firefox");
    assert_eq!(app.icon_path.as_deref(), Some("firefox"));
    assert_eq!(app.platform, "linux");
}

#[test]
fn parse_desktop_nodisplay_returns_err() {
    let hidden = "[Desktop Entry]\nName=Secret\nExec=secret\nNoDisplay=true";
    assert!(parse_desktop_content(hidden, "/x.desktop").is_err());
}

#[test]
fn parse_desktop_strips_field_codes() {
    let entry = "[Desktop Entry]\nName=Editor\nExec=editor --flag %F %u %i\nType=Application";
    let app = parse_desktop_content(entry, "/x.desktop").unwrap();
    assert_eq!(app.command, "editor --flag");
}

#[test]
fn parse_desktop_missing_exec_returns_err() {
    let entry = "[Desktop Entry]\nName=NoExec\nType=Application";
    assert!(parse_desktop_content(entry, "/x.desktop").is_err());
}

#[test]
fn parse_desktop_reports_each_refusal() {
    let not_app = "[Desktop Entry]\nName=Link\nExec=x\nType=Link";
    assert!(matches!(parse_desktop_content(not_app, "/x"), Err(AppIndexError::Parse(m)) if m == "not an application"));
    let hidden = "[Desktop Entry]\nHidden=true\nName=A\nExec=a";
    assert!(matches!(parse_desktop_content(hidden, "/x"), Err(AppIndexError::Parse(m)) if m == "hidden app"));
    let missing = "[Desktop Entry]\nName=A";
    assert!(matches!(parse_desktop_content(missing, "/x"), Err(AppIndexError::Parse(m)) if m == "missing Name or Exec"));
}

#[test]
fn parse_desktop_ignores_other_sections_and_crlf() {
    let entry = "[Desktop Entry]\r\nName=App\r\nExec=app --x\r\n[Desktop Action New]\r\nName=Other\r\nExec=other\r\n";
    let app = parse_desktop_content(entry, "/a.desktop").unwrap();
    assert_eq!(app.name, "App");
    assert_eq!(app.command, "app --x");
    assert_eq!(app.icon_path, None);
    assert_eq!(app.source_path, "/a.desktop");
    assert_eq!(app.id, 0);
}

// ---------------------------------------------------------------------------
// The search pipeline's own logic

fn app_row(name: &str, source: &str) -> AppRow {
    AppRow {
        id: 0,
        name: name.to_string(),
        command: name.to_lowercase(),
        icon_path: None,
        platform: "linux".to_string(),
        source_path: source.to_string(),
    }
}

#[test]
fn plan_query_routes_star_syntax_and_empty_queries() {
    assert!(matches!(plan_query("   "), QueryPlan::Empty));
    assert!(matches!(plan_query("**"), QueryPlan::Empty));
    assert!(matches!(plan_query("*"), QueryPlan::Empty));
    assert!(matches!(plan_query(" *Test* "), QueryPlan::Wildcard(s) if s == "test"));
    assert!(matches!(plan_query("Report"), QueryPlan::Pipeline(s) if s == "report"));
}

#[test]
fn file_name_of_takes_the_last_component() {
    assert_eq!(file_name_of("/tmp/a/report.pdf"), "report.pdf");
    assert_eq!(file_name_of("/tmp/a/"), "a");
    assert_eq!(file_name_of("/"), "/");
    assert_eq!(file_name_of("a/.."), "a/..");
}

#[test]
fn collector_skips_repeats_and_ranks_apps_first() {
    let mut c = SearchCollector::new();
    let high = 1.0f64.to_bits();
    let mid = 0.8f64.to_bits();
    c.add_files(&["/tmp/code_notes.txt".to_string(), "/tmp/code_notes.txt".to_string()], high);
    assert_eq!(c.len(), 1);
    c.add_files(&["/tmp/code_notes.txt".to_string(), "/tmp/other.txt".to_string()], mid);
    assert_eq!(c.len(), 2);
    assert!(c.wants_text_stage(3));
    assert!(c.wants_fallback());
    c.add_apps(&[app_row("VS Code", "/usr/share/applications/code.desktop")], high);
    c.add_fuzzy(&[FuzzyHit { path: "/tmp/other.txt".to_string(), name: "other.txt".to_string(), score_key: 0.5f64.to_bits() }]);
    assert_eq!(c.len(), 3);
    let out = c.finish(50);
    assert_eq!(out.len(), 3);
    assert_eq!(out[0].name, "VS Code");
    assert_eq!(out[0].result_type, ResultType::App);
    assert!(matches!(out[0].source, ResultSource::LocalApp));
    assert_eq!(out[0].command.as_deref(), Some("vs code"));
    assert_eq!(out[1].name, "code_notes.txt");
    assert_eq!(out[2].name, "other.txt");
}

#[test]
fn collector_sort_is_stable_and_truncates() {
    let mut c = SearchCollector::new();
    let k = 0.65f64.to_bits();
    c.add_files(&["/b".to_string(), "/a".to_string(), "/c".to_string()], k);
    let out = c.finish(2);
    assert_eq!(out.len(), 2);
    assert_eq!(out[0].path, "/b");
    assert_eq!(out[1].path, "/a");
}

#[test]
fn build_indexes_fills_trie_and_filter_with_lowercased_names() {
    let files = vec![FileRow {
        name: "Quarterly_Report.txt".to_string(),
        path: "/tmp/Quarterly_Report.txt".to_string(),
        parent_path: "/tmp".to_string(),
        file_type: "file".to_string(),
        size: None,
        last_modified: None,
        extension: None,
        is_hidden: 0,
    }];
    let (trie, bloom) = build_indexes(&files, sized_filter(1000, 0.01));
    assert_eq!(trie.get("quarterly_report.txt"), Some("/tmp/Quarterly_Report.txt"));
    assert!(bloom.may_contain("quarterly_report.txt"));
    assert_eq!(trie.prefix_search("quar", 10), vec!["/tmp/Quarterly_Report.txt".to_string()]);
}

// ---------------------------------------------------------------------------
// The scan's decisions

#[test]
fn entry_action_follows_the_scan_rules() {
    assert_eq!(entry_action("a.txt", EntryKind::File, Some(10), false), EntryAction::IndexFile);
    assert_eq!(entry_action(".hidden", EntryKind::File, Some(10), false), EntryAction::Skip);
    assert_eq!(entry_action(".hidden", EntryKind::File, Some(10), true), EntryAction::IndexFile);
    assert_eq!(entry_action("big.bin", EntryKind::File, Some(MAX_FILE_SIZE_BYTES + 1), false), EntryAction::Skip);
    assert_eq!(entry_action("ok.bin", EntryKind::File, Some(MAX_FILE_SIZE_BYTES), false), EntryAction::IndexFile);
    assert_eq!(entry_action("Reports", EntryKind::Dir, None, false), EntryAction::IndexDir);
    assert_eq!(entry_action("link", EntryKind::Symlink, None, true), EntryAction::Skip);
    assert_eq!(entry_action("x", EntryKind::File, None, false), EntryAction::Skip);
}

#[test]
fn progress_is_emitted_every_250_files() {
    assert!(should_emit_progress(250));
    assert!(should_emit_progress(500));
    assert!(!should_emit_progress(251));
}

// ---------------------------------------------------------------------------
// Jaro counts

#[test]
fn jaro_counts_for_martha_and_marhta() {
    let c = jaro_counts("martha", "marhta");
    assert_eq!((c.len_a, c.len_b, c.matches, c.transpositions), (6, 6, 6, 2));
    assert_eq!(common_prefix4("martha", "marhta"), 3);
    assert_eq!(common_prefix4("report", "report"), 4);
    let c = jaro_counts("abc", "xyz");
    assert_eq!(c.matches, 0);
    let c = jaro_counts("", "");
    assert_eq!((c.len_a, c.len_b, c.matches), (0, 0, 0));
}

// ---------------------------------------------------------------------------
// Bundle names

#[test]
fn bundle_name_prefers_listed_name_then_stem() {
    assert_eq!(bundle_name(Some("Safari".to_string()), "Safari2".to_string()).unwrap(), "Safari");
    assert_eq!(bundle_name(None, "Notes".to_string()).unwrap(), "Notes");
    assert!(matches!(bundle_name(None, String::new()), Err(AppIndexError::Parse(m)) if m == "empty name"));
    assert!(matches!(bundle_name(Some(String::new()), "Stem".to_string()), Err(AppIndexError::Parse(_))));
}

// ---------------------------------------------------------------------------
// Star-only queries, trie counters, pixel order, the answer cache

#[test]
fn star_only_queries_plan_nothing() {
    for q in ["", "   ", "*", "**", "  *** "] {
        assert!(matches!(plan_query(q), QueryPlan::Empty), "{q:?}");
    }
    assert!(matches!(plan_query("*Ab*"), QueryPlan::Wildcard(s) if s == "ab"));
}

#[test]
fn trie_frequency_and_insert_room() {
    let mut t = Trie::new();
    assert_eq!(t.frequency("a"), None);
    assert!(t.can_insert("a"));
    t.insert("a", "first".to_string());
    t.insert("a", "second".to_string());
    assert_eq!(t.frequency("a"), Some(2));
    assert_eq!(t.get("a"), Some("first"));
    assert_eq!(t.len(), 1);
    assert!(t.can_insert("a"));
}

#[test]
fn bgra_pixels_become_rgba() {
    let mut buf = vec![1u8, 2, 3, 4, 5, 6, 7, 8, 9, 10];
    bgra_to_rgba(&mut buf);
    assert_eq!(buf, vec![3u8, 2, 1, 4, 7, 6, 5, 8, 9, 10]);
}

fn hit(name: &str) -> SearchHit {
    SearchHit {
        name: name.to_string(),
        path: format!("/x/{name}"),
        command: None,
        result_type: ResultType::File,
        source: ResultSource::LocalFile,
        score_key: 1,
    }
}

#[test]
fn answer_cache_keeps_recent_answers() {
    let mut c = AnswerCache::new(2);
    assert!(c.lookup("a").is_none());
    c.store("a".to_string(), vec![hit("one")]);
    c.store("b".to_string(), vec![hit("two"), hit("three")]);
    assert_eq!(c.len(), 2);
    let a = c.lookup("a").unwrap();
    assert_eq!(a.len(), 1);
    assert_eq!(a[0].name, "one");
    c.store("c".to_string(), vec![]);
    assert_eq!(c.len(), 2);
    assert!(c.lookup("b").is_none());
    assert!(c.lookup("a").is_some());
    c.clear();
    assert_eq!(c.len(), 0);
}

#[test]
fn bloom_clone_keeps_terms() {
    let mut f = sized_filter(100, 0.01);
    f.insert("report");
    let g = f.clone();
    assert!(g.may_contain("report"));
    assert_eq!(g.bit_count(), f.bit_count());
}

fn indexed(name: &str, path: &str) -> FileRow {
    FileRow {
        name: name.to_string(),
        path: path.to_string(),
        parent_path: "/".to_string(),
        file_type: "file".to_string(),
        size: None,
        last_modified: None,
        extension: None,
        is_hidden: 0,
    }
}

#[test]
fn build_indexes_keeps_first_path_and_counts_each_file() {
    let files = vec![indexed("Notes.md", "/a/Notes.md"), indexed("notes.md", "/b/notes.md"), indexed("todo", "/c/todo")];
    let (trie, bloom) = build_indexes(&files, sized_filter(100, 0.01));
    assert_eq!(trie.get("notes.md"), Some("/a/Notes.md"));
    assert_eq!(trie.frequency("notes.md"), Some(2));
    assert_eq!(trie.frequency("todo"), Some(1));
    assert_eq!(trie.len(), 2);
    assert!(bloom.may_contain("todo"));
}

#[test]
fn icon_cache_name_is_hex_digest_png() {
    assert_eq!(icon_cache_name("abc"), "ba7816bf8f01cfea414140de5dae2223b00361a396177a9cb410ff61f20015ad.png");
}

#[test]
fn entry_files_counts_only_files() {
    assert_eq!(entry_files(&EntryAction::IndexFile, 9), 1);
    assert_eq!(entry_files(&EntryAction::IndexDir, 9), 9);
    assert_eq!(entry_files(&EntryAction::Skip, 9), 0);
}

#[test]
fn inserted_terms_stay_admitted_after_more_inserts() {
    let mut f = sized_filter(50, 0.01);
    f.insert("first");
    for i in 0..200 {
        f.insert(&format!("other-{i}"));
    }
    assert!(f.may_contain("first"));
}
