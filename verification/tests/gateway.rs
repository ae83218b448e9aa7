use litgate::auth::check_credentials;
use litgate::authors::authors_listing;
use litgate::authors::merge_authors;
use litgate::authors::validate_listing;
use litgate::books::book_lookup;
use litgate::books::books_listing;
use litgate::books::collect_present;
use litgate::books::wolne_listing;
use litgate::books::GutendexBook;
use litgate::books::WolneBook;
use litgate::error::classify_failure;
use litgate::error::combine_sources;
use litgate::error::ApiError;
use litgate::error::FetchError;
use litgate::order::take_page;
use litgate::pick::pick_poem;
use litgate::pick::pick_poem_opt;
use litgate::poems::process_poems;
use litgate::poems::Poem;
use litgate::quote::quote_message;
use litgate::wordcount::word_count;

fn strings(names: &[&str]) -> Vec<String> {
    names.iter().map(|n| n.to_string()).collect()
}

fn poem(title: &str, author: &str, lines: &[&str], linecount: &str) -> Poem {
    Poem {
        title: title.to_string(),
        author: author.to_string(),
        lines: lines.iter().map(|l| l.to_string()).collect(),
        linecount: linecount.to_string(),
    }
}

fn titles(poems: &[Poem]) -> Vec<String> {
    poems.iter().map(|p| p.title.clone()).collect()
}

#[test]
fn listing_rejects_large_limit() {
    assert_eq!(validate_listing(Some(101), None), Err(ApiError::BadRequest));
    assert_eq!(validate_listing(Some(101), Some(5)), Err(ApiError::BadRequest));
}

#[test]
fn listing_rejects_large_offset() {
    assert_eq!(validate_listing(None, Some(1001)), Err(ApiError::BadRequest));
    assert_eq!(validate_listing(Some(5), Some(1001)), Err(ApiError::BadRequest));
}

#[test]
fn listing_accepts_bounds() {
    assert_eq!(validate_listing(Some(100), Some(1000)), Ok(()));
    assert_eq!(validate_listing(None, None), Ok(()));
}

#[test]
fn bad_request_status_is_400() {
    assert_eq!(ApiError::BadRequest.status_code(), 400);
    assert_eq!(ApiError::Unauthorized.status_code(), 401);
    assert_eq!(ApiError::NotFound.status_code(), 404);
    assert_eq!(ApiError::UpstreamUnavailable.status_code(), 502);
}

#[test]
fn authors_deduplicate_preserving_order() {
    let merged = merge_authors(strings(&["Alice", "Bob"]), strings(&["Bob", "Carol"]));
    assert_eq!(merged, strings(&["Alice", "Bob", "Carol"]));
}

#[test]
fn pagination_applies_offset_then_limit() {
    let page = take_page(strings(&["Alice", "Bob", "Carol", "Dan"]), 1, 2);
    assert_eq!(page, strings(&["Bob", "Carol"]));
}

#[test]
fn pagination_beyond_end_is_empty() {
    let page = take_page(strings(&["Alice", "Bob"]), 5, 2);
    assert_eq!(page, Vec::<String>::new());
}

#[test]
fn authors_listing_merges_filters_and_pages() {
    let r = authors_listing(
        strings(&["Alice", "Bob"]),
        strings(&["Bob", "Carol", "Dan"]),
        None,
        Some(1),
        Some(2),
    );
    assert_eq!(r, strings(&["Bob", "Carol"]));
}

#[test]
fn authors_listing_name_filter_is_case_sensitive() {
    let r = authors_listing(
        strings(&["Alice", "alina", "Bob"]),
        strings(&[]),
        Some("Ali".to_string()),
        None,
        None,
    );
    assert_eq!(r, strings(&["Alice"]));
}

#[test]
fn linecount_sort_is_lexicographic() {
    let poems = vec![
        poem("a", "x", &[], "10"),
        poem("b", "x", &[], "2"),
        poem("c", "x", &[], "33"),
    ];
    let sorted = process_poems(poems, None, Some("linecount".to_string()), None);
    let counts: Vec<String> = sorted.iter().map(|p| p.linecount.clone()).collect();
    assert_eq!(counts, strings(&["10", "2", "33"]));
}

#[test]
fn title_sort_descending() {
    let poems = vec![
        poem("Autumn", "x", &[], "1"),
        poem("Clouds", "x", &[], "1"),
        poem("Bells", "x", &[], "1"),
    ];
    let sorted = process_poems(
        poems,
        None,
        Some("title".to_string()),
        Some("desc".to_string()),
    );
    assert_eq!(titles(&sorted), strings(&["Clouds", "Bells", "Autumn"]));
}

#[test]
fn unrecognized_sort_order_is_ascending() {
    let poems = vec![
        poem("Clouds", "x", &[], "1"),
        poem("Autumn", "x", &[], "1"),
        poem("Bells", "x", &[], "1"),
    ];
    let sorted = process_poems(
        poems,
        None,
        Some("title".to_string()),
        Some("upward".to_string()),
    );
    assert_eq!(titles(&sorted), strings(&["Autumn", "Bells", "Clouds"]));
}

#[test]
fn unknown_sort_key_keeps_order() {
    let poems = vec![
        poem("Clouds", "x", &[], "1"),
        poem("Autumn", "x", &[], "1"),
    ];
    let sorted = process_poems(poems, None, Some("lines".to_string()), None);
    assert_eq!(titles(&sorted), strings(&["Clouds", "Autumn"]));
}

#[test]
fn poem_search_is_case_insensitive() {
    let poems = vec![
        poem("The Cat", "x", &[], "1"),
        poem("A Dog", "x", &[], "1"),
        poem("CATALOG", "x", &[], "1"),
    ];
    let found = process_poems(poems, Some("cAt".to_string()), None, None);
    assert_eq!(titles(&found), strings(&["The Cat", "CATALOG"]));
}

#[test]
fn word_count_lowercases_and_sorts_by_count() {
    let poems = vec![poem("p", "x", &["The Cat", "the dog"], "2")];
    let counts = word_count(poems);
    assert_eq!(counts.len(), 3);
    assert_eq!(counts[0], ("the".to_string(), 2));
    assert!(counts.contains(&("cat".to_string(), 1)));
    assert!(counts.contains(&("dog".to_string(), 1)));
}

#[test]
fn word_count_of_no_poems_is_empty() {
    let counts = word_count(Vec::new());
    assert!(counts.is_empty());
}

#[test]
fn random_pick_is_deterministic_under_a_seed() {
    let mk = || {
        vec![
            poem("a", "x", &[], "1"),
            poem("b", "x", &[], "1"),
            poem("c", "x", &[], "1"),
        ]
    };
    let first = pick_poem(mk(), 42).expect("non-empty list");
    let second = pick_poem(mk(), 42).expect("non-empty list");
    assert_eq!(first.title, second.title);
    let third = pick_poem_opt(mk(), Some(42)).expect("non-empty list");
    assert_eq!(first.title, third.title);
}

#[test]
fn random_pick_of_empty_list_is_none() {
    assert!(pick_poem(Vec::new(), 7).is_none());
    assert!(pick_poem_opt(Vec::new(), None).is_none());
}

#[test]
fn book_lookup_absent_from_both_is_not_found() {
    let g = vec![GutendexBook {
        title: "Moby Dick".to_string(),
        formats: vec![("text/plain".to_string(), "http://g/1".to_string())],
    }];
    let w = vec![WolneBook {
        kind: "epika".to_string(),
        title: "Lalka".to_string(),
        href: "http://w/1".to_string(),
    }];
    let r = book_lookup(Ok(g), Ok(w), &"Missing".to_string());
    assert_eq!(r, Err(ApiError::NotFound));
    let r2 = book_lookup(
        Err::<Vec<GutendexBook>, _>(FetchError::NotFound),
        Err::<Vec<WolneBook>, _>(FetchError::NotFound),
        &"Anything".to_string(),
    );
    assert_eq!(r2, Err(ApiError::NotFound));
}

#[test]
fn book_lookup_collects_one_url_per_source() {
    let g = vec![GutendexBook {
        title: "Moby Dick".to_string(),
        formats: vec![
            ("text/plain".to_string(), "http://g/first".to_string()),
            ("text/html".to_string(), "http://g/second".to_string()),
        ],
    }];
    let w = vec![WolneBook {
        kind: "epika".to_string(),
        title: "Moby Dick".to_string(),
        href: "http://w/moby".to_string(),
    }];
    let r = book_lookup(Ok(g), Ok(w), &"Moby Dick".to_string()).expect("found");
    assert_eq!(r, strings(&["http://g/first", "http://w/moby"]));
}

#[test]
fn single_source_failure_fails_the_listing() {
    let g = vec![GutendexBook {
        title: "Moby Dick".to_string(),
        formats: Vec::new(),
    }];
    let r = books_listing(Ok(g), Err(FetchError::Unavailable));
    assert_eq!(r, Err(ApiError::UpstreamUnavailable));
    let w = vec![WolneBook {
        kind: "epika".to_string(),
        title: "Lalka".to_string(),
        href: "http://w/1".to_string(),
    }];
    let r2 = books_listing(Err(FetchError::Unavailable), Ok(w));
    assert_eq!(r2, Err(ApiError::UpstreamUnavailable));
}

#[test]
fn combine_sources_passes_both_payloads_through() {
    let r = combine_sources::<u8, u8>(Ok(1), Ok(2));
    assert_eq!(r, Ok((Some(1), Some(2))));
    let r2 = combine_sources::<u8, u8>(Err(FetchError::NotFound), Ok(2));
    assert_eq!(r2, Ok((None, Some(2))));
    let r3 = combine_sources::<u8, u8>(Err(FetchError::NotFound), Err(FetchError::NotFound));
    assert_eq!(r3, Err(ApiError::NotFound));
}

#[test]
fn books_listing_concatenates_without_dedup() {
    let g = vec![
        GutendexBook {
            title: "Shared".to_string(),
            formats: Vec::new(),
        },
    ];
    let w = vec![WolneBook {
        kind: "epika".to_string(),
        title: "Shared".to_string(),
        href: "http://w/1".to_string(),
    }];
    let r = books_listing(Ok(g), Ok(w)).expect("both sources up");
    assert_eq!(r, strings(&["Shared", "Shared"]));
}

#[test]
fn wolne_listing_filters_sorts_and_pages() {
    let mk = |kind: &str, title: &str| WolneBook {
        kind: kind.to_string(),
        title: title.to_string(),
        href: format!("http://w/{}", title),
    };
    let books = vec![
        mk("Epika", "Quo Vadis"),
        mk("Liryka", "Ballady"),
        mk("Epika", "Lalka"),
        mk("Epika", "Faraon"),
    ];
    let r = wolne_listing(books, &Some("a".to_string()), &Some("epika".to_string()), 1);
    let got: Vec<String> = r.iter().map(|b| b.title.clone()).collect();
    assert_eq!(got, strings(&["Faraon", "Lalka", "Quo Vadis"]));
}

#[test]
fn wolne_listing_second_page() {
    let books: Vec<WolneBook> = (0..12)
        .map(|i| WolneBook {
            kind: "epika".to_string(),
            title: format!("{:02}", i),
            href: format!("http://w/{}", i),
        })
        .collect();
    let r = wolne_listing(books, &None, &None, 2);
    let got: Vec<String> = r.iter().map(|b| b.title.clone()).collect();
    assert_eq!(got, strings(&["10", "11"]));
}

#[test]
fn classify_failure_distinguishes_not_found() {
    assert_eq!(classify_failure(Some(404)), FetchError::NotFound);
    assert_eq!(classify_failure(Some(500)), FetchError::Unavailable);
    assert_eq!(classify_failure(None), FetchError::Unavailable);
}

#[test]
fn quote_is_framed() {
    assert_eq!(quote_message("all is well"), "Quote of the day: all is well");
}

#[test]
fn credentials_require_the_fixed_pair() {
    assert!(check_credentials("admin", Some("admin")));
    assert!(!check_credentials("admin", Some("wrong")));
    assert!(!check_credentials("user", Some("admin")));
    assert!(!check_credentials("admin", None));
}

#[test]
fn shortened_urls_keep_successes_in_order() {
    let r = collect_present(vec![
        Some("http://s/1".to_string()),
        None,
        Some("http://s/2".to_string()),
    ]);
    assert_eq!(r, strings(&["http://s/1", "http://s/2"]));
}
