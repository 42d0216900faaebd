use type3arabi::session::CandidateKind;
use type3arabi::ui::{list_footer, list_page, preview_text, row_marker, Footer, ListPage, RowMarker};

#[test]
fn pages_of_the_candidate_list() {
    assert_eq!(list_page(0, 9, 3), ListPage { page: 0, pages: 1, start: 0, end: 0 });
    assert_eq!(list_page(12, 5, 0), ListPage { page: 0, pages: 3, start: 0, end: 5 });
    assert_eq!(list_page(12, 5, 2), ListPage { page: 2, pages: 3, start: 10, end: 12 });
    assert_eq!(list_page(12, 5, 7), ListPage { page: 2, pages: 3, start: 10, end: 12 });
    assert_eq!(list_page(10, 2, 1), ListPage { page: 1, pages: 2, start: 5, end: 10 });
    assert_eq!(list_page(10, 40, 1), ListPage { page: 1, pages: 2, start: 9, end: 10 });
}

#[test]
fn every_candidate_shows_on_its_page() {
    for total in 1..40usize {
        for i in 0..total {
            let p = list_page(total, 7, i / 7);
            assert!(p.start <= i && i < p.end);
        }
    }
}

#[test]
fn markers_and_footer() {
    assert_eq!(row_marker(CandidateKind::Completion), RowMarker::Completion);
    assert_eq!(row_marker(CandidateKind::Word), RowMarker::Plain);
    assert_eq!(row_marker(CandidateKind::RawLatin), RowMarker::RawLatin);
    assert_eq!(list_footer(1, 3, "auto"), Footer::Paging { page: 2, pages: 3 });
    assert_eq!(list_footer(0, 1, "never"), Footer::Hidden);
    assert_eq!(list_footer(0, 1, "auto"), Footer::Hints);
    assert_eq!(list_footer(299, 300, "auto"), Footer::Paging { page: 255, pages: 255 });
    assert_eq!(list_footer(0, 0, "never"), Footer::Hidden);
    assert_eq!(list_footer(usize::MAX, 2, "auto"), Footer::Paging { page: 255, pages: 2 });
}

#[test]
fn inline_preview_text() {
    let texts: Vec<String> = vec!["\u{0643}\u{062A}\u{0628}".into(), "\u{0643}\u{062A}\u{0628}\u{064A}".into()];
    assert_eq!(preview_text(None, "arabic", "ktb".into(), &texts, 1), texts[1]);
    assert_eq!(preview_text(None, "arabic", "ktb".into(), &texts, 5), texts[0]);
    assert_eq!(preview_text(None, "latin", "ktb".into(), &texts, 1), "ktb");
    assert_eq!(preview_text(None, "arabic", "ktb".into(), &vec![], 0), "ktb");
    assert_eq!(preview_text(Some("w".into()), "latin", "ktb".into(), &texts, 0), "w");
}
