use worklog_cli::config::Config;
use worklog_cli::checklist::parse_checklist;
use worklog_cli::heading::{parse_heading, Heading};
use worklog_cli::markdown::{MarkdownBlock, MarkdownFile};
use worklog_cli::ordered_list::parse_ordered_list;
use worklog_cli::section::insert_line_in_section;
use worklog_cli::unordered_list::parse_unordered_list;

#[test]
fn test_render_heading() {
    let heading = Heading::new(3, "Deep dive".to_string());
    assert_eq!(heading.render(), "### Deep dive");
}

#[test]
fn test_heading_replace() {
    let mut heading = Heading::new(2, "Before".to_string());
    heading.replace("After".to_string());
    assert_eq!(heading.level, 2);
    assert_eq!(heading.content, "After");
}

#[test]
fn test_parse_heading_trims_and_rejects() {
    match parse_heading("  ## Hi  ") {
        Some(MarkdownBlock::Heading(h)) => {
            assert_eq!(h.level, 2);
            assert_eq!(h.content, "Hi");
        }
        _ => panic!("Expected a heading"),
    }
    // seven hashes leave the heading pattern
    assert!(parse_heading("####### too deep").is_none());
    // hashes without content are no heading
    assert!(parse_heading("##").is_none());
}

#[test]
fn test_checklist_takes_precedence_over_bullet() {
    let file = MarkdownFile::from_string("- [x] done\n- plain");
    assert_eq!(file.blocks.len(), 2);
    assert!(matches!(&file.blocks[0], MarkdownBlock::Checklist(_)));
    assert!(matches!(&file.blocks[1], MarkdownBlock::UnorderedList(_)));
}

#[test]
fn test_box_without_space_is_plain_bullet() {
    let file = MarkdownFile::from_string("- [x]done");
    assert_eq!(file.blocks.len(), 1);
    match &file.blocks[0] {
        MarkdownBlock::UnorderedList(list) => {
            assert_eq!(list.items[0].content, "[x]done");
        }
        _ => panic!("Expected unordered list block"),
    }
}

#[test]
fn test_unordered_run_stops_at_checklist_line() {
    let lines = ["- a", "- [ ] b"];
    let (block, consumed) = parse_unordered_list(&lines, 0);
    assert_eq!(consumed, 1);
    match block {
        MarkdownBlock::UnorderedList(list) => {
            assert_eq!(list.items.len(), 1);
            assert_eq!(list.items[0].content, "a");
        }
        _ => panic!("Expected unordered list block"),
    }
}

#[test]
fn test_checklist_run_stops_at_bullet_line() {
    let lines = ["- [ ] a", "- b"];
    let (block, consumed) = parse_checklist(&lines, 0);
    assert_eq!(consumed, 1);
    match block {
        MarkdownBlock::Checklist(checklist) => {
            assert_eq!(checklist.items, vec![(false, "a".to_string())]);
        }
        _ => panic!("Expected checklist block"),
    }
}

#[test]
fn test_ordered_run_stops_at_prose() {
    let lines = ["1. a", "2. b", "prose"];
    let (block, consumed) = parse_ordered_list(&lines, 0);
    assert_eq!(consumed, 2);
    match block {
        MarkdownBlock::OrderedList(list) => {
            assert_eq!(list.items, vec!["a".to_string(), "b".to_string()]);
        }
        _ => panic!("Expected ordered list block"),
    }
}

#[test]
fn test_ordered_list_renumbering() {
    let file = MarkdownFile::from_string("5. x\n9. y");
    assert_eq!(file.to_string(), "1. x\n2. y");
}

#[test]
fn test_render_normalizes_bullets_and_indent() {
    let file = MarkdownFile::from_string("* a\n+ b\n  - c");
    assert_eq!(file.to_string(), "- a\n- b\n  - c");
}

#[test]
fn test_render_mixed_document() {
    let file = MarkdownFile::from_string("# T\n\nwords here\n\n- [X] done\n- [ ] open");
    assert_eq!(file.to_string(), "# T\n\nwords here\n\n- [x] done\n- [ ] open");
}

#[test]
fn test_round_trip_preserves_blocks() {
    let text = "# Title\n\nSome prose\nover two lines.\n\n## Tasks\n\n- [x] done\n\n- [ ] open\n\n* milk\n  + eggs\n\n7. first\n12. second";
    let first = MarkdownFile::from_string(text);
    let rendered = first.to_string();
    let second = MarkdownFile::from_string(&rendered);

    assert_eq!(first.blocks.len(), second.blocks.len());
    // parsing the rendering reproduces the same rendering
    assert_eq!(second.to_string(), rendered);
    for (a, b) in first.blocks.iter().zip(second.blocks.iter()) {
        assert_eq!(a.render(), b.render());
    }
}

#[test]
fn test_set_title_replaces_heading() {
    let file = MarkdownFile::from_string("# Old\n\nbody");
    let titled = file.set_title("New");
    assert_eq!(titled.blocks.len(), 2);
    match &titled.blocks[0] {
        MarkdownBlock::Heading(h) => {
            assert_eq!(h.level, 1);
            assert_eq!(h.content, "New");
        }
        _ => panic!("Expected heading block"),
    }
    assert_eq!(titled.to_string(), "# New\n\nbody");
}

#[test]
fn test_set_title_inserts_heading() {
    let file = MarkdownFile::from_string("just a paragraph");
    let titled = file.set_title("New");
    assert_eq!(titled.blocks.len(), 2);
    match &titled.blocks[0] {
        MarkdownBlock::Heading(h) => {
            assert_eq!(h.level, 1);
            assert_eq!(h.content, "New");
        }
        _ => panic!("Expected heading block"),
    }
    assert!(matches!(&titled.blocks[1], MarkdownBlock::Paragraph(_)));
}

#[test]
fn test_filter_completed_tasks() {
    let file = MarkdownFile::from_string("- [x] a\n- [ ] b\n- [x] c");
    let filtered = file.filter_completed_tasks();
    assert_eq!(filtered.blocks.len(), 1);
    match &filtered.blocks[0] {
        MarkdownBlock::Checklist(checklist) => {
            assert_eq!(checklist.items, vec![(false, "b".to_string())]);
        }
        _ => panic!("Expected checklist block"),
    }
}

#[test]
fn test_filter_completed_keeps_empty_checklist() {
    let file = MarkdownFile::from_string("## Tasks\n\n- [x] a\n- [X] b");
    let filtered = file.filter_completed_tasks();
    assert_eq!(filtered.blocks.len(), 2);
    match &filtered.blocks[1] {
        MarkdownBlock::Checklist(checklist) => {
            assert_eq!(checklist.items.len(), 0);
        }
        _ => panic!("Expected checklist block to be retained"),
    }
}

#[test]
fn test_add_note_appends_to_list() {
    let file = MarkdownFile::from_string("# Day\n\n## Notes\n\n- old");
    let updated = file.add_note("new");
    assert_eq!(updated.blocks.len(), 3);
    match &updated.blocks[2] {
        MarkdownBlock::UnorderedList(list) => {
            assert_eq!(list.items.len(), 2);
            assert_eq!(list.items[0].content, "old");
            assert_eq!(list.items[1].content, "new");
            assert_eq!(list.items[1].indentation_level, 0);
        }
        _ => panic!("Expected unordered list block"),
    }
}

#[test]
fn test_add_note_starts_new_list() {
    let file = MarkdownFile::from_string("## Notes\n\nprose");
    let updated = file.add_note("fresh");
    assert_eq!(updated.blocks.len(), 3);
    match &updated.blocks[1] {
        MarkdownBlock::UnorderedList(list) => {
            assert_eq!(list.items.len(), 1);
            assert_eq!(list.items[0].content, "fresh");
        }
        _ => panic!("Expected unordered list block"),
    }
}

#[test]
fn test_add_note_without_heading_changes_nothing() {
    let file = MarkdownFile::from_string("# Day\n\nprose");
    let updated = file.add_note("ignored");
    assert_eq!(updated.blocks.len(), 2);
    assert_eq!(updated.to_string(), file.to_string());
}

#[test]
fn test_add_task_prefers_intake_section() {
    let file =
        MarkdownFile::from_string("## Tasks\n\n- [ ] a\n\n### Intake\n\n- [x] b");
    let updated = file.add_task("new task");
    assert_eq!(updated.blocks.len(), 4);
    match &updated.blocks[3] {
        MarkdownBlock::Checklist(checklist) => {
            assert_eq!(checklist.items.len(), 2);
            assert_eq!(checklist.items[1], (false, "new task".to_string()));
        }
        _ => panic!("Expected checklist block"),
    }
    // the Tasks checklist is untouched
    match &updated.blocks[1] {
        MarkdownBlock::Checklist(checklist) => {
            assert_eq!(checklist.items.len(), 1);
        }
        _ => panic!("Expected checklist block"),
    }
}

#[test]
fn test_add_task_falls_back_to_tasks_section() {
    let file = MarkdownFile::from_string("## Tasks\n\nprose");
    let updated = file.add_task("todo");
    assert_eq!(updated.blocks.len(), 3);
    match &updated.blocks[1] {
        MarkdownBlock::Checklist(checklist) => {
            assert_eq!(checklist.items, vec![(false, "todo".to_string())]);
        }
        _ => panic!("Expected checklist block"),
    }
}

#[test]
fn test_add_task_at_document_end() {
    let file = MarkdownFile::from_string("### Intake");
    let updated = file.add_task("last");
    assert_eq!(updated.blocks.len(), 2);
    match &updated.blocks[1] {
        MarkdownBlock::Checklist(checklist) => {
            assert_eq!(checklist.items, vec![(false, "last".to_string())]);
        }
        _ => panic!("Expected checklist block"),
    }
}

#[test]
fn test_insert_line_before_next_section() {
    let content = "## Tasks\n- a\n\n# Done\nx";
    let result = insert_line_in_section(content, "- b", "## Tasks");
    assert_eq!(result, "## Tasks\n- a\n- b\n\n# Done\nx");
}

#[test]
fn test_insert_line_section_missing() {
    let content = "# A\nx";
    let result = insert_line_in_section(content, "- b", "## Z");
    assert_eq!(result, "# A\nx");
}

#[test]
fn test_config_default_editor() {
    let config = Config::default();
    assert_eq!(config.editor_command, "nvim");
}
