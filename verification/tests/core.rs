use sudoview::app::{App, Nav};
use sudoview::classify::{classify, classify_line};
use sudoview::sudoers::{get_sudoers, split_term};
use sudoview::tokenize::{tokenize, SpanRole};

fn t(s: &str) -> Vec<char> {
    s.chars().collect()
}

fn lines(xs: &[&str]) -> Vec<Vec<char>> {
    xs.iter().map(|x| t(x)).collect()
}

fn ten_lines() -> Vec<Vec<char>> {
    (0..10).map(|i| t(&format!("line {}", i))).collect()
}

#[test]
fn num_pages_is_ceiling_of_items_over_capacity() {
    let mut app = App::new(ten_lines());
    app.update_log_information(3, false);
    assert_eq!(app.num_pages, 4);
    app.update_log_information(5, false);
    assert_eq!(app.num_pages, 2);
    app.update_log_information(10, false);
    assert_eq!(app.num_pages, 1);
    app.update_log_information(7, false);
    assert_eq!(app.num_pages, 2);
}

#[test]
fn zero_items_means_zero_pages() {
    let mut app = App::new(Vec::new());
    app.update_log_information(5, false);
    assert_eq!(app.num_pages, 0);
    assert_eq!(app.num_logs, 0);
    assert!(app.get_page().is_empty());
}

#[test]
fn zero_capacity_is_invalid_and_gives_zero_pages() {
    let mut app = App::new(ten_lines());
    app.update_log_information(0, false);
    assert_eq!(app.num_pages, 0);
    assert_eq!(app.page_index, 0);
    assert!(app.get_page().is_empty());
}

#[test]
fn pages_concatenate_to_all_items_without_gaps_or_overlaps() {
    let mut app = App::new(ten_lines());
    app.update_log_information(3, false);
    let mut collected: Vec<Vec<char>> = Vec::new();
    for p in 0..app.num_pages {
        app.page_index = p;
        let page = app.get_page();
        if p + 1 < app.num_pages {
            assert_eq!(page.len(), 3);
        }
        collected.extend(page);
    }
    assert_eq!(collected, ten_lines());
}

#[test]
fn final_page_keeps_its_last_item() {
    let mut app = App::new(ten_lines());
    app.update_log_information(3, true);
    assert_eq!(app.page_index, 3);
    let page = app.get_page();
    assert_eq!(page, vec![t("line 9")]);
}

#[test]
fn page_up_is_idempotent_at_first_page() {
    let mut app = App::new(ten_lines());
    app.update_log_information(3, false);
    assert_eq!(app.page_index, 0);
    app.page_up();
    assert_eq!(app.page_index, 0);
    app.page_up();
    assert_eq!(app.page_index, 0);
}

#[test]
fn page_down_is_idempotent_at_last_page() {
    let mut app = App::new(ten_lines());
    app.update_log_information(3, true);
    assert_eq!(app.page_index, 3);
    app.page_down();
    assert_eq!(app.page_index, 3);
    app.page_down();
    assert_eq!(app.page_index, 3);
}

#[test]
fn page_down_with_no_pages_is_a_no_op() {
    let mut app = App::new(Vec::new());
    app.update_log_information(4, false);
    assert_eq!(app.num_pages, 0);
    app.page_down();
    assert_eq!(app.page_index, 0);
}

#[test]
fn switching_tabs_three_times_returns_to_the_start() {
    let mut app = App::new(ten_lines());
    assert_eq!(app.tab_index, 0);
    app.next();
    assert_eq!(app.tab_index, 1);
    app.next();
    assert_eq!(app.tab_index, 2);
    app.next();
    assert_eq!(app.tab_index, 0);
    app.prev();
    assert_eq!(app.tab_index, 2);
    app.prev();
    app.prev();
    assert_eq!(app.tab_index, 0);
}

#[test]
fn tab_change_resets_to_the_most_recent_page() {
    let mut app = App::new(ten_lines());
    app.update_log_information(3, true);
    app.page_up();
    assert_eq!(app.page_index, 2);
    app.update_log_information(3, false);
    assert_eq!(app.page_index, 2);
    app.next();
    app.next();
    app.next();
    app.update_log_information(3, true);
    assert_eq!(app.page_index, app.num_pages - 1);
}

#[test]
fn tokenizing_without_the_marker_yields_one_plain_span() {
    let users = lines(&["alice"]);
    let spans = tokenize(&t("Mar 1 kernel: booting"), &users);
    assert_eq!(spans.len(), 1);
    assert_eq!(spans[0].role, SpanRole::Plain);
    assert_eq!(spans[0].text, t("Mar 1 kernel: booting"));
}

#[test]
fn tokenizing_the_empty_line_yields_one_empty_plain_span() {
    let spans = tokenize(&t(""), &lines(&["alice"]));
    assert_eq!(spans.len(), 1);
    assert_eq!(spans[0].role, SpanRole::Plain);
    assert!(spans[0].text.is_empty());
}

#[test]
fn tokenizing_marks_keyword_and_privileged_username() {
    let line = t("Mar 1 sudo: alice : COMMAND=/bin/ls");
    let users = lines(&["alice"]);
    let spans = tokenize(&line, &users);
    assert_eq!(spans.len(), 5);
    assert_eq!(spans[0].role, SpanRole::Plain);
    assert_eq!(spans[0].text, t("Mar 1 "));
    assert_eq!(spans[1].role, SpanRole::Keyword);
    assert_eq!(spans[1].text, t("sudo"));
    assert_eq!(spans[2].role, SpanRole::Plain);
    assert_eq!(spans[2].text, t(": "));
    assert_eq!(spans[3].role, SpanRole::Username);
    assert_eq!(spans[3].text, t("alice"));
    assert_eq!(spans[4].role, SpanRole::Plain);
    assert_eq!(spans[4].text, t(" : COMMAND=/bin/ls"));
    let rebuilt: Vec<char> = spans.iter().flat_map(|s| s.text.iter().copied()).collect();
    assert_eq!(rebuilt, line);
}

#[test]
fn tokenizing_matches_the_keyword_inside_longer_words() {
    let spans = tokenize(&t("sudoers"), &Vec::new());
    assert_eq!(spans.len(), 2);
    assert_eq!(spans[0].role, SpanRole::Keyword);
    assert_eq!(spans[0].text, t("sudo"));
    assert_eq!(spans[1].role, SpanRole::Plain);
    assert_eq!(spans[1].text, t("ers"));
}

#[test]
fn tokenizing_adjacent_keywords() {
    let spans = tokenize(&t("sudosudo"), &Vec::new());
    assert_eq!(spans.len(), 2);
    assert_eq!(spans[0].role, SpanRole::Keyword);
    assert_eq!(spans[1].role, SpanRole::Keyword);
}

#[test]
fn classifying_keeps_command_lines_and_drops_bookkeeping() {
    let input = lines(&["X sudo: pam_unix(sudo:session): session opened",
        "Y sudo: bob : COMMAND=/bin/cat"]);
    let (events, table) = classify(&input);
    assert_eq!(events.len(), 1);
    assert_eq!(events[0].line, t("Y sudo: bob : COMMAND=/bin/cat"));
    assert_eq!(events[0].user, t("bob"));
    assert_eq!(events[0].command, t("/bin/cat"));
    assert_eq!(table.get(&t("/bin/cat")), 1);
    assert_eq!(table.get(&t("/bin/ls")), 0);
}

#[test]
fn classifying_skips_marked_lines_without_a_command() {
    let input = lines(&["Z sudo: alice : TTY=pts/0", "plain line"]);
    let (events, table) = classify(&input);
    assert!(events.is_empty());
    assert_eq!(table.entries.len(), 0);
}

#[test]
fn classify_line_extracts_user_and_command() {
    let e = classify_line(&t("May 5 host sudo:  root  : TTY=pts/0 ; COMMAND=/usr/bin/id"));
    let e = e.expect("the line names a command");
    assert_eq!(e.user, t("root"));
    assert_eq!(e.command, t("/usr/bin/id"));
}

#[test]
fn loading_a_group_file_yields_the_member_set() {
    let users = get_sudoers(&lines(&["sudo:x:27:alice,bob"]));
    assert_eq!(users.len(), 2);
    assert!(users.contains(&t("alice")));
    assert!(users.contains(&t("bob")));
}

#[test]
fn group_records_with_fewer_than_four_fields_are_skipped() {
    assert!(get_sudoers(&lines(&["sudo:x:27"])).is_empty());
    assert!(get_sudoers(&lines(&["sudo:x:27:"])).is_empty());
    assert!(get_sudoers(&lines(&["admin:x:4:alice"])).is_empty());
}

#[test]
fn members_of_several_matching_groups_are_unioned() {
    let users = get_sudoers(&lines(&["sudo:x:27:alice", "sudoers:x:28:bob,alice"]));
    assert_eq!(users.len(), 2);
    assert!(users.contains(&t("alice")));
    assert!(users.contains(&t("bob")));
}

#[test]
fn splitting_drops_only_a_trailing_empty_part() {
    let parts = split_term(&t("a:b:"), ':');
    assert_eq!(parts, vec![t("a"), t("b")]);
    let parts = split_term(&t("a::b"), ':');
    assert_eq!(parts, vec![t("a"), t(""), t("b")]);
    assert!(split_term(&t(""), ':').is_empty());
}

#[test]
fn frequency_counts_are_independent_of_line_order() {
    let one = lines(&["a sudo: u : COMMAND=/bin/ls", "b sudo: u : COMMAND=/bin/cat",
        "c sudo: u : COMMAND=/bin/ls", "d sudo: u : COMMAND=/bin/cat"]);
    let two = lines(&["d sudo: u : COMMAND=/bin/cat", "c sudo: u : COMMAND=/bin/ls",
        "b sudo: u : COMMAND=/bin/cat", "a sudo: u : COMMAND=/bin/ls"]);
    let (_, table_one) = classify(&one);
    let (_, table_two) = classify(&two);
    assert_eq!(table_one.get(&t("/bin/ls")), 2);
    assert_eq!(table_one.get(&t("/bin/cat")), 2);
    assert_eq!(table_two.get(&t("/bin/ls")), 2);
    assert_eq!(table_two.get(&t("/bin/cat")), 2);
}

#[test]
fn sorted_commands_go_by_count_then_first_seen() {
    let input = lines(&["1 sudo: u : COMMAND=/bin/b", "2 sudo: u : COMMAND=/bin/c",
        "3 sudo: u : COMMAND=/bin/b", "4 sudo: u : COMMAND=/bin/c",
        "5 sudo: u : COMMAND=/bin/a"]);
    let (_, table) = classify(&input);
    let sorted = table.sorted();
    assert_eq!(sorted.len(), 3);
    assert_eq!(sorted[0].command, t("/bin/b"));
    assert_eq!(sorted[0].count, 2);
    assert_eq!(sorted[1].command, t("/bin/c"));
    assert_eq!(sorted[1].count, 2);
    assert_eq!(sorted[2].command, t("/bin/a"));
    assert_eq!(sorted[2].count, 1);
}

#[test]
fn recent_commands_returns_the_last_events() {
    let app = App::new(lines(&["1 sudo: u : COMMAND=/bin/a", "2 sudo: v : COMMAND=/bin/b",
        "3 sudo: w : COMMAND=/bin/c"]));
    let recent = app.recent_commands(2);
    assert_eq!(recent.len(), 2);
    assert_eq!(recent[0], (t("v"), t("/bin/b")));
    assert_eq!(recent[1], (t("w"), t("/bin/c")));
    let all = app.recent_commands(10);
    assert_eq!(all.len(), 3);
}

#[test]
fn sudo_tab_pages_through_event_lines() {
    let mut app = App::new(lines(&["plain", "x sudo: u : COMMAND=/bin/a",
        "y sudo: pam_unix: session", "z sudo: v : COMMAND=/bin/b"]));
    app.next();
    app.update_log_information(10, true);
    assert_eq!(app.num_logs, 2);
    let page = app.get_page();
    assert_eq!(page, vec![t("x sudo: u : COMMAND=/bin/a"), t("z sudo: v : COMMAND=/bin/b")]);
}

#[test]
fn handle_nav_dispatches_and_reports_tab_changes() {
    let mut app = App::new(ten_lines());
    app.update_log_information(3, true);
    assert!(!app.handle_nav(Nav::PageUp));
    assert_eq!(app.page_index, 2);
    assert!(!app.handle_nav(Nav::PageDown));
    assert_eq!(app.page_index, 3);
    assert!(app.handle_nav(Nav::NextTab));
    assert_eq!(app.tab_index, 1);
    assert!(app.handle_nav(Nav::PrevTab));
    assert_eq!(app.tab_index, 0);
    assert!(!app.handle_nav(Nav::Quit));
    assert_eq!(app.tab_index, 0);
    assert_eq!(app.page_index, 3);
}
