use text_parser::format::{Heading, RawStructruedText};
use text_parser::heading_tree::HeadingTree;
use text_parser::reader::account::{parse_i8, AccountState, ReplyOutcome};
use text_parser::reader::document_format::DocLabled;
use text_parser::reader::note_windows::first_closed_window;
use text_parser::reader::outline;

fn h(name: &str, location: usize, level: u8) -> Heading {
    Heading { name: name.to_string(), location, level }
}

type Flat = Vec<((String, usize), Vec<((String, usize), Vec<(String, usize)>)>)>;

fn flatten(t: &HeadingTree) -> Flat {
    let mut v: Flat = t
        .sections
        .iter()
        .map(|s| {
            let mut subs: Vec<_> = s
                .subsections
                .iter()
                .map(|b| (b.key.clone(), b.entries.clone()))
                .collect();
            subs.sort();
            (s.key.clone(), subs)
        })
        .collect();
    v.sort();
    v
}

fn k(name: &str, loc: usize) -> (String, usize) {
    (name.to_string(), loc)
}

#[test]
fn tree_groups_headings_by_level() {
    let heads = vec![
        h("h2a", 0, 2),
        h("h3a", 5, 3),
        h("H1", 10, 1),
        h("h3b", 15, 3),
        h("h2b", 20, 2),
        h("h3c", 25, 4),
    ];
    let tree = RawStructruedText::transfer2tree(&heads);
    assert_eq!(
        flatten(&tree),
        vec![
            (k(" ", 0), vec![(k("h2a", 0), vec![k("h3a", 5)])]),
            (k("H1", 10), vec![(k(" ", 15), vec![k("h3b", 15)]), (k("h2b", 20), vec![k("h3c", 25)])]),
        ]
    );
}

#[test]
fn tree_repeated_section_starts_over() {
    let heads = vec![h("A", 1, 1), h("s", 2, 2), h("x", 3, 3), h("A", 1, 1), h("y", 4, 0)];
    let tree = RawStructruedText::transfer2tree(&heads);
    assert_eq!(flatten(&tree), vec![(k("A", 1), vec![(k(" ", 4), vec![k("y", 4)])])]);
}

#[test]
fn tree_of_no_headings_is_empty() {
    let tree = RawStructruedText::transfer2tree(&vec![]);
    assert!(tree.sections.is_empty());
    assert!(HeadingTree::new().sections.is_empty());
}

#[test]
fn tree_level_one_only() {
    let tree = RawStructruedText::transfer2tree(&vec![h("a", 0, 1), h("b", 9, 1)]);
    assert_eq!(flatten(&tree), vec![(k("a", 0), vec![]), (k("b", 9), vec![])]);
}

#[test]
fn default_values() {
    let d = Heading::default();
    assert_eq!((d.name.as_str(), d.location, d.level), ("", 0, 0));
    let r = RawStructruedText::default();
    assert!(r.heads.is_empty() && r.raw_text.is_empty());
    let o = outline::Heading::default();
    assert_eq!((o.head_name.as_str(), o.head_position), ("", 0));
    let doc = DocLabled::default();
    assert!(doc.highlights.is_empty() && doc.notes.is_empty());
    assert_eq!(doc.default_color, (0, 0, 0, 0));
}

const C1: (u8, u8, u8) = (1, 2, 3);
const C2: (u8, u8, u8) = (9, 8, 7);
const TEXT: &str = "abcdefghijklmnopqrstuvwxyz0123456789";

fn doc(highlights: Vec<(usize, usize, (u8, u8, u8))>) -> DocLabled {
    DocLabled::new(TEXT.to_string(), highlights, vec![], 0, (10, 20, 30, 255))
}

#[test]
fn highlight_new_range() {
    let mut d = doc(vec![]);
    d.update_highlight(2, 5, C1);
    assert_eq!(d.highlights, vec![(2, 5, C1)]);
}

#[test]
fn highlight_inside_existing_splits_it() {
    let mut d = doc(vec![(2, 5, C1)]);
    d.update_highlight(3, 4, C2);
    assert_eq!(d.highlights, vec![(2, 3, C1), (4, 5, C1)]);
}

#[test]
fn highlight_inside_existing_at_its_start_keeps_the_rest() {
    let mut d = doc(vec![(2, 9, C1)]);
    d.update_highlight(2, 6, C2);
    assert_eq!(d.highlights, vec![(6, 9, C1)]);
}

#[test]
fn highlight_same_start_drops_both_parts_when_equal() {
    let mut d = doc(vec![(2, 5, C1)]);
    d.update_highlight(2, 2, C2);
    assert_eq!(d.highlights, vec![]);
}

#[test]
fn highlight_after_existing_is_added_last() {
    let mut d = doc(vec![(2, 5, C1)]);
    d.update_highlight(6, 10, C2);
    assert_eq!(d.highlights, vec![(2, 5, C1), (6, 10, C2)]);
}

#[test]
fn highlight_overlap_cuts_the_old_one() {
    let mut d = doc(vec![(2, 5, C1)]);
    d.update_highlight(4, 8, C2);
    assert_eq!(d.highlights, vec![(2, 4, C1), (4, 8, C2)]);
}

#[test]
fn rendering_draws_the_whole_text_once() {
    let d = doc(vec![(2, 4, C1), (6, 8, C2)]);
    assert!(d.can_render());
    let pieces: Vec<(String, (u8, u8, u8, u8), Option<(u8, u8, u8)>)> =
        d.rendering().into_iter().map(|p| (p.text, p.color, p.background)).collect();
    let white = (255, 255, 255, 255);
    let plain = (10, 20, 30, 255);
    assert_eq!(
        pieces,
        vec![
            ("ab".to_string(), plain, None),
            ("cde".to_string(), white, Some(C1)),
            ("f".to_string(), plain, None),
            ("ghi".to_string(), white, Some(C2)),
            ("jklmnopqrstuvwxyz0123456789".to_string(), plain, None),
        ]
    );
    let joined: String = d.rendering().into_iter().map(|p| p.text).collect();
    assert_eq!(joined, TEXT);
}

#[test]
fn rendering_without_highlights_is_the_plain_text() {
    let d = DocLabled::new("abc".to_string(), vec![], vec![], 0, (1, 1, 1, 1));
    let pieces = d.rendering();
    assert_eq!(pieces.len(), 1);
    assert_eq!((pieces[0].text.as_str(), pieces[0].color, pieces[0].background), ("abc", (1, 1, 1, 1), None));
    assert!(DocLabled::default().rendering().is_empty());
}

#[test]
fn rendering_multibyte_text() {
    let d = DocLabled::new("x中y".to_string(), vec![(0, 3, C1)], vec![], 0, (0, 0, 0, 0));
    assert!(d.can_render());
    let texts: Vec<String> = d.rendering().into_iter().map(|p| p.text).collect();
    assert_eq!(texts, vec!["x中".to_string(), "y".to_string()]);
}

#[test]
fn rendering_needs_highlights_on_boundaries() {
    assert!(!doc(vec![(2, 40, C1)]).can_render());
    assert!(!doc(vec![(5, 2, C1)]).can_render());
    assert!(doc(vec![(3, 2, C1)]).can_render());
    assert!(doc(vec![(2, 4, C1), (4, 8, C2)]).can_render());
    let d = DocLabled::new("x中y".to_string(), vec![(0, 1, C1)], vec![], 0, (0, 0, 0, 0));
    assert!(!d.can_render());
}

fn drawn(d: &DocLabled) -> Vec<(String, Option<(u8, u8, u8)>)> {
    assert!(d.can_render());
    d.rendering().into_iter().map(|p| (p.text, p.background)).collect()
}

#[test]
fn rendering_touching_highlights_draws_each_byte_once() {
    let mut d = doc(vec![(2, 5, C1)]);
    d.update_highlight(4, 8, C2);
    assert_eq!(d.highlights, vec![(2, 4, C1), (4, 8, C2)]);
    assert_eq!(
        drawn(&d),
        vec![
            ("ab".to_string(), None),
            ("cde".to_string(), Some(C1)),
            ("fghi".to_string(), Some(C2)),
            ("jklmnopqrstuvwxyz0123456789".to_string(), None),
        ]
    );
}

#[test]
fn rendering_skips_what_is_already_drawn() {
    assert_eq!(
        drawn(&doc(vec![(6, 8, C1), (2, 4, C2)])),
        vec![
            ("abcdef".to_string(), None),
            ("ghi".to_string(), Some(C1)),
            ("jklmnopqrstuvwxyz0123456789".to_string(), None),
        ]
    );
    assert_eq!(
        drawn(&doc(vec![(3, 2, C1)])),
        vec![("abc".to_string(), None), ("defghijklmnopqrstuvwxyz0123456789".to_string(), None)]
    );
}

#[test]
fn selection_fits_tells_which_updates_can_be_drawn() {
    let d = doc(vec![(2, 5, C1)]);
    assert!(d.selection_fits(3, 4, C2));
    assert!(d.selection_fits(6, 10, C2));
    let d = doc(vec![(0, 9, C1), (20, 30, C2)]);
    assert!(!d.selection_fits(4, 6, C2));
    let d = DocLabled::new("ab".to_string(), vec![], vec![], 0, (0, 0, 0, 0));
    assert!(!d.selection_fits(0, 5, C1));
}

#[test]
fn notes_are_added_deleted_and_pruned() {
    let mut d = DocLabled::default();
    d.update_notes(1, 4, "first".to_string());
    d.update_notes(5, 5, "empty range".to_string());
    d.update_notes(6, 9, "third".to_string());
    d.remove_collapsed_notes();
    assert_eq!(d.notes, vec![(1, 4, "first".to_string()), (6, 9, "third".to_string())]);
    d.delete_note(0);
    assert_eq!(d.notes[0], (0, 0, String::new()));
    d.remove_collapsed_notes();
    assert_eq!(d.notes, vec![(6, 9, "third".to_string())]);
}

#[test]
fn selection_highlights_and_notes_only_when_finished() {
    let mut d = doc(vec![]);
    d.apply_selection(1, 1, true, true, true, C1);
    d.apply_selection(1, 3, false, true, true, C1);
    assert!(d.highlights.is_empty() && d.notes.is_empty());
    d.apply_selection(1, 3, true, true, false, C1);
    assert_eq!(d.highlights, vec![(1, 3, C1)]);
    assert!(d.notes.is_empty());
    d.apply_selection(5, 7, true, false, true, C2);
    assert_eq!(d.highlights, vec![(1, 3, C1)]);
    assert_eq!(d.notes, vec![(5, 7, String::new())]);
}

#[test]
fn parse_i8_follows_std() {
    for s in ["5", "-128", "127", "+7", "0001", "-0", "", "-", "+", "128", "-129", "1a", " 1", "999999999999"] {
        assert_eq!(parse_i8(s), s.parse::<i8>().ok(), "{:?}", s);
    }
}

fn reply(a: &str, b: &str, c: &str, d: &str) -> (String, String, String, String) {
    (a.to_string(), b.to_string(), c.to_string(), d.to_string())
}

#[test]
fn account_starts_activated_and_logout_closes_transfers() {
    let mut a = AccountState::new();
    assert_eq!((a.login_state, a.user_type.as_str(), a.activation_state.as_str()), (0, "nothing", "activate"));
    assert!(a.may_transfer_records());
    a.logout();
    assert_eq!((a.login_state, a.user_type.as_str(), a.activation_state.as_str()), (0, "nothing", "not_activate"));
    assert!(!a.may_transfer_records());
}

#[test]
fn accepted_reply_sets_the_account() {
    let mut a = AccountState::new();
    a.logout();
    let r = a.apply_reply(reply("Ok", "1", "VIP1", "activate"));
    assert_eq!(r, ReplyOutcome::Accepted);
    assert_eq!((a.login_state, a.user_type.as_str(), a.activation_state.as_str()), (1, "VIP1", "activate"));
    assert!(a.may_transfer_records());
}

#[test]
fn refused_reply_keeps_the_account() {
    let mut a = AccountState::new();
    let r = a.apply_reply(reply("pwd_error", "x", "regular", "not_activate"));
    assert_eq!(r, ReplyOutcome::Refused("pwd_error".to_string()));
    assert_eq!((a.login_state, a.user_type.as_str(), a.activation_state.as_str()), (0, "nothing", "activate"));
}

#[test]
fn loading_a_note_again_reopens_its_first_closed_window() {
    let w = |o: bool, p: &str| (o, p.to_string());
    let windows = vec![w(true, "a.md"), w(false, "b.md"), w(false, "a.md"), w(false, "a.md")];
    assert_eq!(first_closed_window(&windows, "a.md"), Some(2));
    assert_eq!(first_closed_window(&windows, "b.md"), Some(1));
    assert_eq!(first_closed_window(&windows, "c.md"), None);
    assert_eq!(first_closed_window(&vec![], "a.md"), None);
}

fn as_map(t: &HeadingTree) -> std::collections::BTreeMap<(String, usize), Vec<((String, usize), Vec<(String, usize)>)>> {
    flatten(t).into_iter().collect()
}

#[test]
fn tree_of_concatenation_overrides_the_first_part() {
    let h1 = vec![h("A", 1, 1), h("s", 2, 2), h("x", 3, 3), h("B", 9, 1), h("u", 10, 2)];
    let h2 = vec![h("A", 1, 1), h("y", 4, 5), h("C", 20, 1)];
    let both: Vec<Heading> = h1.iter().chain(h2.iter()).cloned().collect();
    let mut expected = as_map(&RawStructruedText::transfer2tree(&h1));
    for (k, v) in as_map(&RawStructruedText::transfer2tree(&h2)) {
        expected.insert(k, v);
    }
    assert_eq!(as_map(&RawStructruedText::transfer2tree(&both)), expected);
}

#[test]
fn tree_subsection_keys_come_from_level_two_or_deeper_headings() {
    let heads = vec![h("a", 0, 3), h("B", 5, 1), h("c", 6, 2), h("d", 7, 4), h("E", 8, 1), h("f", 9, 0)];
    let tree = RawStructruedText::transfer2tree(&heads);
    for s in &tree.sections {
        for sub in &s.subsections {
            let ok = heads.iter().any(|x| {
                (x.level == 2 && sub.key == (x.name.clone(), x.location))
                    || (x.level != 1 && x.level != 2 && sub.key == (" ".to_string(), x.location))
            });
            assert!(ok, "{:?}", sub.key);
        }
    }
    assert_eq!(
        flatten(&tree),
        vec![
            (k(" ", 0), vec![(k(" ", 0), vec![k("a", 0)])]),
            (k("B", 5), vec![(k("c", 6), vec![k("d", 7)])]),
            (k("E", 8), vec![(k(" ", 9), vec![k("f", 9)])]),
        ]
    );
}
