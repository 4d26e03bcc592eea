use bib_sort::{
    check_duplicates, clean_string, clean_string_keep_escapes, first_author_field_content,
    first_author_first_name, first_author_from_content, first_name_of, get_string_case_fn,
    parse_entries, render_entries, sort_bib, sort_by_first_author_field,
    sort_by_first_author_first_name, sort_by_key, BibEntry, BibError, BracketCounter,
    LineIterHelper, Opts, ParseOptions, Problem,
};

fn lines(text: &[&str]) -> Vec<String> {
    text.iter().map(|l| l.to_string()).collect()
}

fn default_opts() -> Opts {
    Opts {
        case_sensitive: false,
        no_duplicate_detection: false,
        allow_empty_keys: false,
        allow_doi_duplicates: false,
        allow_empty_doi: false,
        sort_by_first_author_field: false,
        sort_by_first_author_first_name: false,
    }
}

fn entry(id: &str, content: &str) -> BibEntry {
    BibEntry { id: id.to_string(), content: content.to_string() }
}

#[test]
fn end_to_end_two_entries_sorted_by_key() {
    let input = lines(&["@misc{zzz, title={Z}}", "", "@misc{aaa, title={A}}"]);
    let out = sort_bib(input, &default_opts()).unwrap();
    assert_eq!(out.len(), 2);
    assert_eq!(out[0].id, "aaa");
    assert_eq!(out[1].id, "zzz");
    assert_eq!(
        render_entries(&out),
        "@misc{aaa, title={A}}\n\n@misc{zzz, title={Z}}\n\n"
    );
}

#[test]
fn output_holds_every_entry_once() {
    let input = lines(&[
        "@book{b,",
        "  title = {Second}",
        "}",
        "@book{a, title={First}}",
        "@book{c, title={Third}}",
    ]);
    let out = sort_bib(input, &default_opts()).unwrap();
    let mut contents: Vec<String> = out.iter().map(|e| e.content.clone()).collect();
    contents.sort();
    let mut expected = vec![
        "@book{b,\n  title = {Second}\n}".to_string(),
        "@book{a, title={First}}".to_string(),
        "@book{c, title={Third}}".to_string(),
    ];
    expected.sort();
    assert_eq!(contents, expected);
}

#[test]
fn multi_line_entry_is_joined_with_newlines() {
    let input = lines(&["  @article{key1,", "  author = {A},", "}"]);
    let out = parse_entries(input, ParseOptions { case_sensitive: false, allow_empty_keys: false }).unwrap();
    assert_eq!(out.len(), 1);
    assert_eq!(out[0].id, "key1,".trim_end_matches(','));
    assert_eq!(out[0].content, "@article{key1,\n  author = {A},\n}");
}

#[test]
fn text_after_closing_brace_starts_next_entry() {
    let input = lines(&["@a{x}@b{y}"]);
    let out = parse_entries(input, ParseOptions { case_sensitive: true, allow_empty_keys: false }).unwrap();
    assert_eq!(out.len(), 2);
    assert_eq!(out[0].content, "@a{x}");
    assert_eq!(out[0].id, "x}@b{y}");
    assert_eq!(out[1].content, "@b{y}");
}

#[test]
fn keys_are_folded_unless_case_sensitive() {
    let folded = parse_entries(lines(&["@misc{AbC}"]), ParseOptions { case_sensitive: false, allow_empty_keys: false }).unwrap();
    assert_eq!(folded[0].id, "abc}");
    let kept = parse_entries(lines(&["@misc{AbC}"]), ParseOptions { case_sensitive: true, allow_empty_keys: false }).unwrap();
    assert_eq!(kept[0].id, "AbC}");
}

#[test]
fn stable_sort_keeps_order_of_equal_keys() {
    let mut es = vec![
        entry("b", "first b"),
        entry("a", "only a"),
        entry("b", "second b"),
    ];
    sort_by_key(&mut es);
    let contents: Vec<&str> = es.iter().map(|e| e.content.as_str()).collect();
    assert_eq!(contents, vec!["only a", "first b", "second b"]);
}

#[test]
fn sorting_sorted_output_changes_nothing() {
    let mut es = vec![
        entry("c", "@x{c, author={Zed}}"),
        entry("a", "@x{a, author={Alpha}}"),
        entry("b", "@x{b, author={alpha}}"),
    ];
    sort_by_first_author_field(&mut es, get_string_case_fn(false));
    let once: Vec<String> = es.iter().map(|e| e.content.clone()).collect();
    sort_by_first_author_field(&mut es, get_string_case_fn(false));
    let twice: Vec<String> = es.iter().map(|e| e.content.clone()).collect();
    assert_eq!(once, twice);
    assert_eq!(once[0], "@x{a, author={Alpha}}");
    assert_eq!(once[1], "@x{b, author={alpha}}");
    assert_eq!(once[2], "@x{c, author={Zed}}");
}

#[test]
fn case_sensitive_author_sort_puts_capitals_first() {
    let mut es = vec![
        entry("a", "@x{a, author={bravo}}"),
        entry("b", "@x{b, author={Zulu}}"),
    ];
    sort_by_first_author_field(&mut es, get_string_case_fn(true));
    assert_eq!(es[0].id, "b");
    let mut es2 = vec![
        entry("a", "@x{a, author={bravo}}"),
        entry("b", "@x{b, author={Zulu}}"),
    ];
    sort_by_first_author_field(&mut es2, get_string_case_fn(false));
    assert_eq!(es2[0].id, "a");
}

#[test]
fn nested_braces_are_kept_inside_value() {
    assert_eq!(first_author_field_content("{A {B} C}, year = 2000"), "{A {B} C}");
    assert_eq!(first_author_field_content("{Complex {N}etworks}"), "{Complex {N}etworks}");
}

#[test]
fn quoted_values_and_missing_delimiters() {
    assert_eq!(first_author_field_content("\"Doe, J.\", x"), "\"Doe, J.\"");
    assert_eq!(first_author_field_content("'Doe' and"), "'Doe'");
    assert_eq!(first_author_field_content("2019,"), "2019,");
    assert_eq!(first_author_field_content("{never closed"), "{never closed");
}

#[test]
fn escaped_braces_do_not_count() {
    assert_eq!(first_author_field_content("{a \\} b} rest"), "{a \\} b}");
    assert_eq!(first_author_field_content("\\{x {y}"), "{y}");
    let input = lines(&["@misc{k, title={x \\} y}}"]);
    let out = parse_entries(input, ParseOptions { case_sensitive: false, allow_empty_keys: false }).unwrap();
    assert_eq!(out.len(), 1);
    assert_eq!(out[0].content, "@misc{k, title={x \\} y}}");
}

#[test]
fn cleaning_strips_or_keeps_escapes() {
    assert_eq!(clean_string("{A \\{B\\} C}"), "A {B} C");
    assert_eq!(clean_string_keep_escapes("{A \\{B\\} C}"), "A \\{B\\} C");
    assert_eq!(clean_string("'\"x\"'"), "x");
    assert_eq!(clean_string("end\\"), "end");
    assert_eq!(clean_string_keep_escapes("end\\"), "end\\");
}

#[test]
fn first_author_is_cut_at_and() {
    let content = "@article{k,\n author = {Smith, John AND Doe, Jane},\n}";
    assert_eq!(first_author_from_content(content), "Smith, John");
    assert_eq!(first_author_first_name(content).unwrap(), "John Smith");
}

#[test]
fn first_author_without_author_field_is_empty() {
    assert_eq!(first_author_from_content("@misc{k, title={T}}"), "");
    assert_eq!(first_author_first_name("@misc{k, title={T}}").unwrap(), "");
}

#[test]
fn author_word_inside_name_does_not_cut() {
    let content = "@article{k, Author = {Anderson, Al and Brandt, B}}";
    assert_eq!(first_author_from_content(content), "Anderson, Al");
}

#[test]
fn first_name_reordering() {
    assert_eq!(first_name_of("  Doe ,  Jane ").unwrap(), "Jane Doe");
    assert_eq!(first_name_of(" Jane Doe ").unwrap(), "Jane Doe");
    assert!(matches!(first_name_of("a, b, c"), Err(BibError::AmbiguousAuthor(s)) if s == "a, b, c"));
}

#[test]
fn ambiguous_first_author_stops_sorting() {
    let mut es = vec![
        entry("a", "@x{a, author={Doe, Jane}}"),
        entry("b", "@x{b, author={One, Two, Three}}"),
    ];
    let before: Vec<String> = es.iter().map(|e| e.content.clone()).collect();
    let r = sort_by_first_author_first_name(&mut es, get_string_case_fn(false));
    assert!(matches!(r, Err(BibError::AmbiguousAuthor(_))));
    let after: Vec<String> = es.iter().map(|e| e.content.clone()).collect();
    assert_eq!(before, after);
}

#[test]
fn sort_by_first_name() {
    let mut es = vec![
        entry("a", "@x{a, author={Smith, Zoe}}"),
        entry("b", "@x{b, author={Young, Adam and Other, O}}"),
    ];
    sort_by_first_author_first_name(&mut es, get_string_case_fn(false)).unwrap();
    assert_eq!(es[0].id, "b");
    assert_eq!(es[1].id, "a");
}

#[test]
fn duplicate_keys_depend_on_case_mode() {
    let input = &["@misc{smith2020}", "@misc{Smith2020}"];
    let r = sort_bib(lines(input), &default_opts());
    match r {
        Err(BibError::Validation(ps)) => {
            assert_eq!(ps.len(), 1);
            assert!(matches!(&ps[0], Problem::DuplicateKey(k) if k == "smith2020}"));
        }
        _ => panic!("duplicate keys were not reported"),
    }
    let mut opts = default_opts();
    opts.case_sensitive = true;
    assert!(sort_bib(lines(input), &opts).is_ok());
}

#[test]
fn duplicate_detection_can_be_turned_off() {
    let mut opts = default_opts();
    opts.no_duplicate_detection = true;
    let out = sort_bib(lines(&["@misc{a}", "@misc{a}"]), &opts).unwrap();
    assert_eq!(out.len(), 2);
}

#[test]
fn empty_key_rejected_unless_allowed() {
    let input = &["@article{,", " title={X}", "}"];
    let r = sort_bib(lines(input), &default_opts());
    assert!(matches!(r, Err(BibError::MissingKey(l)) if l == "@article{,"));
    let mut opts = default_opts();
    opts.allow_empty_keys = true;
    let out = sort_bib(lines(input), &opts).unwrap();
    assert_eq!(out.len(), 1);
    assert_eq!(out[0].id, "");
    assert_eq!(out[0].content, "@article{,\n title={X}\n}");
}

#[test]
fn empty_keys_are_exempt_from_duplicates() {
    let mut opts = default_opts();
    opts.allow_empty_keys = true;
    let input = &["@article{ doi = {10.1/x}}", "@article{ doi = {10.1/x}}"];
    let out = sort_bib(lines(input), &opts).unwrap();
    assert_eq!(out.len(), 2);
}

#[test]
fn structural_errors() {
    let o = default_opts();
    assert!(matches!(sort_bib(lines(&["title = {x}"]), &o), Err(BibError::LineOutsideEntry(l)) if l == "title = {x}"));
    assert!(matches!(sort_bib(lines(&["@misc"]), &o), Err(BibError::MissingOpeningBrace(_))));
    assert!(matches!(sort_bib(lines(&["@misc{a,", "x = {y}"]), &o), Err(BibError::UnexpectedEndOfInput)));
    assert!(matches!(sort_bib(lines(&["@misc}{a}"]), &o), Err(BibError::ClosedBeforeOpened(l)) if l == "@misc}{a}"));
    assert!(matches!(sort_bib(lines(&["@misc{a,", "}}"]), &o), Err(BibError::LineOutsideEntry(l)) if l == "}"));
}

#[test]
fn blank_lines_are_skipped() {
    let out = sort_bib(lines(&["", "   ", "@misc{a}", "\t", "@misc{b}", ""]), &default_opts()).unwrap();
    assert_eq!(out.len(), 2);
}

#[test]
fn duplicate_dois_are_reported() {
    let input = &[
        "@misc{a, doi = {10.1000/xyz-1}, title={A}}",
        "@misc{b, DOI={10.1000/xyz-1}}",
        "@misc{c, doi = {10.1000/other}}",
    ];
    match sort_bib(lines(input), &default_opts()) {
        Err(BibError::Validation(ps)) => {
            assert_eq!(ps.len(), 1);
            assert!(matches!(&ps[0], Problem::DuplicateDoi(d) if d == "10.1000/xyz-1"));
        }
        _ => panic!("duplicate DOI was not reported"),
    }
    let mut opts = default_opts();
    opts.allow_doi_duplicates = true;
    assert!(sort_bib(lines(input), &opts).is_ok());
}

#[test]
fn empty_doi_is_refused_unless_allowed() {
    let input = &["@misc{a, doi = {}, title={10.5/not-this}}"];
    match sort_bib(lines(input), &default_opts()) {
        Err(BibError::Validation(ps)) => {
            assert!(matches!(&ps[0], Problem::UnparseableDoi(k) if k == "a"));
        }
        _ => panic!("empty DOI was not reported"),
    }
    let mut opts = default_opts();
    opts.allow_empty_doi = true;
    assert!(sort_bib(lines(input), &opts).is_ok());
}

#[test]
fn check_duplicates_reports_keys_then_dois() {
    let es = vec![
        entry("a", "@m{a, doi={10.1/q}}"),
        entry("a", "@m{a, doi={10.1/q}}"),
    ];
    let ps = check_duplicates(&es, &default_opts());
    assert_eq!(ps.len(), 2);
    assert!(matches!(&ps[0], Problem::DuplicateKey(k) if k == "a"));
    assert!(matches!(&ps[1], Problem::DuplicateDoi(d) if d == "10.1/q"));
}

#[test]
fn line_supply_hands_back_pushed_line_first() {
    let mut supply = LineIterHelper::new(lines(&["one", "two"]));
    assert_eq!(supply.next().as_deref(), Some("one"));
    supply.push_back("again".to_string());
    assert_eq!(supply.next().as_deref(), Some("again"));
    assert_eq!(supply.next().as_deref(), Some("two"));
    assert_eq!(supply.next(), None);
}

#[test]
fn bracket_counter_stops_at_balance() {
    let mut supply = LineIterHelper::new(Vec::new());
    let mut counter = BracketCounter::fresh();
    assert!(counter.equal_brackets());
    let mut content: Vec<char> = Vec::new();
    counter.count_brackets_return_content("@a{b{c}}tail", &mut supply, &mut content).unwrap();
    assert!(counter.equal_brackets());
    assert_eq!(content.iter().collect::<String>(), "@a{b{c}}");
    assert_eq!(supply.next().as_deref(), Some("tail"));
}

#[test]
fn author_sort_through_pipeline() {
    let mut opts = default_opts();
    opts.sort_by_first_author_field = true;
    let input = &[
        "@misc{a, author = {Zeta, Z}}",
        "@misc{b, author = {Alpha, A}}",
    ];
    let out = sort_bib(lines(input), &opts).unwrap();
    assert_eq!(out[0].id, "b");
}
