use assistant_message_parser::{
    default_tool_names, default_tool_param_names, default_tool_prefixes, AssistantMessageParser,
    ContentBlock, ParserError, TextContent, ToolParams, ToolUse, MAX_ACCUMULATOR_SIZE,
    MAX_PARAM_LENGTH,
};

const MESSAGE: &str = "Let me look. <read_file><args>src/main.rs</args></read_file> Now write: \
<write_to_file><path>out.txt</path><content>\nline one\n</content></write_to_file> done";

fn parse_whole(message: &str) -> Vec<ContentBlock> {
    let mut parser = AssistantMessageParser::default();
    parser.process_chunk(message).unwrap()
}

fn text_of(block: &ContentBlock) -> &str {
    match block {
        ContentBlock::Text(text) => &text.content,
        ContentBlock::ToolUse(_) => panic!("expected text"),
    }
}

/// The first tool block.
fn first_tool(blocks: &[ContentBlock]) -> &ToolUse {
    blocks
        .iter()
        .find_map(|block| match block {
            ContentBlock::ToolUse(tool) => Some(tool),
            ContentBlock::Text(_) => None,
        })
        .expect("expected a tool block")
}

fn tool_of(block: &ContentBlock) -> &ToolUse {
    match block {
        ContentBlock::ToolUse(tool) => tool,
        ContentBlock::Text(_) => panic!("expected tool"),
    }
}

#[test]
fn splitting_a_message_into_two_chunks_parses_the_same() {
    let whole = parse_whole(MESSAGE);
    let boundaries = MESSAGE.char_indices().map(|(i, _)| i).collect::<Vec<_>>();
    for cut in boundaries {
        let mut parser = AssistantMessageParser::default();
        parser.process_chunk(&MESSAGE[..cut]).unwrap();
        let blocks = parser.process_chunk(&MESSAGE[cut..]).unwrap();
        assert_eq!(blocks, whole, "cut at byte {cut}");
    }
}

#[test]
fn character_by_character_parses_the_same_as_whole() {
    let message = "héllo wörld <read_file><args> ünïcode.rs </args></read_file> ✓ fin";
    let whole = parse_whole(message);
    let mut parser = AssistantMessageParser::default();
    let mut last = Vec::new();
    for (i, ch) in message.char_indices() {
        last = parser
            .process_chunk(&message[i..i + ch.len_utf8()])
            .unwrap();
    }
    assert_eq!(last, whole);
    assert_eq!(text_of(&whole[0]), "héllo wörld");
    assert_eq!(tool_of(&whole[1]).params.get("args").unwrap(), "ünïcode.rs");
    assert_eq!(text_of(&whole[2]), "✓ fin");
}

#[test]
fn earlier_blocks_are_never_rewritten() {
    let mut parser = AssistantMessageParser::default();
    let mut previous: Vec<ContentBlock> = Vec::new();
    let chars = MESSAGE.char_indices().collect::<Vec<_>>();
    for window in chars.chunks(7) {
        let start = window[0].0;
        let (last_index, last_char) = window[window.len() - 1];
        let end = last_index + last_char.len_utf8();
        let blocks = parser.process_chunk(&MESSAGE[start..end]).unwrap();
        assert!(blocks.len() >= previous.len());
        if !previous.is_empty() {
            assert_eq!(&blocks[..previous.len() - 1], &previous[..previous.len() - 1]);
        }
        previous = blocks;
    }
}

#[test]
fn tool_opening_tag_closes_text_and_opens_partial_tool() {
    let mut parser = AssistantMessageParser::default();
    let blocks = parser.process_chunk("Some text <read_file>").unwrap();
    assert_eq!(blocks.len(), 2);
    assert_eq!(
        blocks[0],
        ContentBlock::Text(TextContent::new("Some text".to_owned(), false))
    );
    assert_eq!(blocks[1], ContentBlock::ToolUse(ToolUse::new("read_file".to_owned(), true)));
}

#[test]
fn text_before_a_tool_tag_is_cut_and_trimmed() {
    let mut parser = AssistantMessageParser::default();
    let before = parser.process_chunk("  lead  <execute_comm").unwrap();
    assert_eq!(before.len(), 1);
    assert_eq!(text_of(&before[0]), "lead  <execute_comm");
    assert!(before[0].partial());
    let after = parser.process_chunk("and>").unwrap();
    assert_eq!(text_of(&after[0]), "lead");
    assert!(!after[0].partial());
    assert!(after[1].is_tool_use());
}

#[test]
fn closing_tag_completes_tool() {
    let mut parser = AssistantMessageParser::default();
    let open = parser.process_chunk("<list_files><path>src</path>").unwrap();
    assert!(first_tool(&open).partial);
    let closed = parser.process_chunk("</list_files>").unwrap();
    assert!(!first_tool(&closed).partial);
    assert_eq!(first_tool(&closed).params.get("path").unwrap(), "src");
}

#[test]
fn parameter_value_streams_before_its_closing_tag() {
    let mut parser = AssistantMessageParser::default();
    let blocks = parser
        .process_chunk("<execute_command><command>  cargo te")
        .unwrap();
    assert_eq!(first_tool(&blocks).params.get("command").unwrap(), "  cargo te");
    let blocks = parser.process_chunk("st  </command>").unwrap();
    assert_eq!(first_tool(&blocks).params.get("command").unwrap(), "cargo test");
}

#[test]
fn content_parameter_loses_one_newline_at_each_end() {
    let blocks = parse_whole(
        "<write_to_file><path>f</path><content>\n\nabc\n\n</content></write_to_file>",
    );
    assert_eq!(first_tool(&blocks).params.get("content").unwrap(), "\nabc\n");
    let blocks = parse_whole("<write_to_file><content>  x  </content></write_to_file>");
    assert_eq!(first_tool(&blocks).params.get("content").unwrap(), "  x  ");
}

#[test]
fn other_parameters_are_trimmed() {
    let blocks = parse_whole("<read_file><args> \n x y \t</args></read_file>");
    assert_eq!(first_tool(&blocks).params.get("args").unwrap(), "x y");
}

#[test]
fn insert_content_keeps_content_newlines() {
    let blocks = parse_whole(
        "<insert_content><path>a</path><line>3</line><content>\nfn a() {}\n\nfn b() {}\n</content></insert_content>",
    );
    let tool = first_tool(&blocks);
    assert_eq!(tool.params.get("content").unwrap(), "fn a() {}\n\nfn b() {}");
    assert_eq!(tool.params.get("line").unwrap(), "3");
}

#[test]
fn write_to_file_content_runs_to_the_last_closing_tag() {
    let blocks = parse_whole(
        "<write_to_file><path>t.md</path><content>\na </content> b\n</content></write_to_file>",
    );
    assert_eq!(first_tool(&blocks).params.get("content").unwrap(), "a </content> b");
}

#[test]
fn tool_to_xml_renders_parameters_in_order() {
    let blocks = parse_whole(
        "<search_files><regex>fn main</regex><path>src</path></search_files>",
    );
    assert_eq!(
        first_tool(&blocks).to_xml(),
        "<search_files>\n<regex>fn main</regex>\n<path>src</path>\n</search_files>"
    );

    let mut tool = ToolUse::new("read_file".to_owned(), false);
    assert_eq!(tool.to_xml(), "<read_file>\n</read_file>");
    tool.params.insert("path".to_owned(), "a.rs".to_owned());
    tool.params.insert("start_line".to_owned(), "1".to_owned());
    tool.params.insert("path".to_owned(), "b.rs".to_owned());
    assert_eq!(
        tool.to_xml(),
        "<read_file>\n<path>b.rs</path>\n<start_line>1</start_line>\n</read_file>"
    );
    assert_eq!(tool.block_type, "tool_use");
}

#[test]
fn tool_params_read_after_write() {
    let mut params = ToolParams::new();
    assert!(params.is_empty());
    assert_eq!(params.get("a"), None);
    params.insert("a".to_owned(), "1".to_owned());
    params.insert("b".to_owned(), "2".to_owned());
    params.insert("a".to_owned(), "3".to_owned());
    assert_eq!(params.len(), 2);
    assert!(!params.is_empty());
    assert_eq!(params.get("a").unwrap(), "3");
    assert_eq!(params.get("b").unwrap(), "2");
    assert_eq!(params.get("c"), None);
    assert_eq!(
        params.entries(),
        vec![
            ("a".to_owned(), "3".to_owned()),
            ("b".to_owned(), "2".to_owned())
        ]
    );
    let copy = params.clone();
    assert_eq!(copy, params);
}

#[test]
fn text_content_to_xml_is_its_content() {
    let text = TextContent::new("plain words".to_owned(), true);
    assert_eq!(text.to_xml(), "plain words");
    assert_eq!(text.block_type, "text");
    assert!(text.partial);
    let block = ContentBlock::Text(text.clone());
    assert!(block.is_text());
    assert!(!block.is_tool_use());
    assert!(block.partial());
    let tool = ContentBlock::ToolUse(ToolUse::new("new_task".to_owned(), false));
    assert!(tool.is_tool_use());
    assert!(!tool.is_text());
    assert!(!tool.partial());
}

#[test]
fn refused_chunk_changes_nothing() {
    let mut parser = AssistantMessageParser::default();
    parser.process_chunk("abc").unwrap();
    let too_large = "y".repeat(MAX_ACCUMULATOR_SIZE - 2);
    assert!(parser.can_process_chunk(&too_large));
    assert_eq!(
        parser.process_chunk(&too_large),
        Err(ParserError::MessageTooLarge)
    );
    assert_eq!(
        parser.get_content_blocks(),
        vec![ContentBlock::Text(TextContent::new("abc".to_owned(), true))]
    );
    let blocks = parser.process_chunk("d").unwrap();
    assert_eq!(text_of(&blocks[0]), "abcd");
}

#[test]
fn too_large_counts_bytes_not_characters() {
    let mut parser = AssistantMessageParser::default();
    let wide = "é".repeat(MAX_ACCUMULATOR_SIZE / 2 + 1);
    assert_eq!(
        parser.process_chunk(&wide),
        Err(ParserError::MessageTooLarge)
    );
    assert_eq!(
        ParserError::MessageTooLarge.to_string(),
        "Assistant message exceeds maximum allowed size"
    );
}

#[test]
fn limits_have_documented_values() {
    assert_eq!(MAX_ACCUMULATOR_SIZE, 1024 * 1024);
    assert_eq!(MAX_PARAM_LENGTH, 100 * 1024);
    assert_eq!(AssistantMessageParser::MAX_ACCUMULATOR_SIZE, 1024 * 1024);
    assert_eq!(AssistantMessageParser::MAX_PARAM_LENGTH, 100 * 1024);
}

#[test]
fn next_text_chunk_holds_back_tag_prefix() {
    let mut parser = AssistantMessageParser::default();
    parser.process_chunk("Hello <rea").unwrap();
    assert!(parser.next_text_chunk_defined());
    assert_eq!(parser.next_text_chunk(), Some("Hello ".to_owned()));
    assert_eq!(parser.next_text_chunk(), None);
    parser.process_chunk("d_file><args>x</args></read_file>").unwrap();
    assert_eq!(parser.next_text_chunk(), None);
    parser.process_chunk(" world").unwrap();
    assert_eq!(parser.next_text_chunk(), Some("world".to_owned()));
    assert_eq!(parser.next_text_chunk(), None);
}

#[test]
fn next_text_chunk_releases_text_that_is_not_a_tag() {
    let mut parser = AssistantMessageParser::default();
    parser.process_chunk("a <b").unwrap();
    assert_eq!(parser.next_text_chunk(), Some("a <b".to_owned()));
    parser.process_chunk("c").unwrap();
    assert_eq!(parser.next_text_chunk(), Some("c".to_owned()));
}

#[test]
fn classic_streaming_case() {
    let mut parser = AssistantMessageParser::new(
        Some(vec!["read_file".into(), "search_files".into()]),
        Some(vec!["path".into(), "regex".into()]),
    );
    let response_chunks = [
        "I will inspect the file. ",
        "<read_file><path>src/main.rs</path></read_file>",
        " Then I will search. ",
        "<search_files><regex>fn main</regex><path>src</path></search_files>",
        " Done.",
    ];

    let mut show_text = String::new();
    let mut completed_tool_xml = Vec::new();
    let mut seen_completed_tool_count = 0;

    for chunk in response_chunks {
        let parsed_blocks = parser.process_chunk(chunk).unwrap();
        while let Some(text_chunk) = parser.next_text_chunk() {
            if !text_chunk.trim().is_empty() {
                show_text.push_str(&text_chunk);
            }
        }
        let completed_tools = parsed_blocks
            .iter()
            .filter_map(|block| match block {
                ContentBlock::ToolUse(tool) if !tool.partial => Some(tool),
                _ => None,
            })
            .collect::<Vec<_>>();
        for tool in completed_tools.iter().skip(seen_completed_tool_count) {
            completed_tool_xml.push(tool.to_xml());
        }
        seen_completed_tool_count = completed_tools.len();
    }

    assert_eq!(show_text, "I will inspect the file. Then I will search. Done.");
    assert_eq!(completed_tool_xml.len(), 2);
    assert_eq!(
        completed_tool_xml[0],
        "<read_file>\n<path>src/main.rs</path>\n</read_file>"
    );
}

#[test]
fn readme_usage_reads_args() {
    let mut parser = AssistantMessageParser::default();
    let blocks = parser
        .process_chunk("<read_file><args>src/main.rs</args></read_file>")
        .unwrap();
    assert_eq!(blocks.len(), 1);
    match &blocks[0] {
        ContentBlock::ToolUse(tool) => {
            assert_eq!(tool.name, "read_file");
            assert_eq!(tool.params.get("args").unwrap(), "src/main.rs");
        }
        ContentBlock::Text(_) => unreachable!(),
    }
}

#[test]
fn text_left_empty_by_a_tool_tag_is_dropped() {
    let mut parser = AssistantMessageParser::default();
    let partial = parser.process_chunk("  <read_fi").unwrap();
    assert_eq!(text_of(&partial[0]), "<read_fi");
    let blocks = parser.process_chunk("le>").unwrap();
    assert_eq!(blocks, vec![ContentBlock::ToolUse(ToolUse::new("read_file".to_owned(), true))]);
    let blocks = parser
        .process_chunk("</read_file><list_files></list_files> x <new_task>")
        .unwrap();
    assert_eq!(blocks.len(), 4);
    assert!(blocks[0].is_tool_use() && blocks[1].is_tool_use());
    assert_eq!(text_of(&blocks[2]), "x");
    assert!(blocks[3].is_tool_use());
}

#[test]
fn last_block_text_surely_checks_tag_prefixes() {
    let mut parser = AssistantMessageParser::default();
    assert!(!parser.is_last_block_text_surely(""));
    parser.process_chunk("Hello").unwrap();
    assert!(parser.is_last_block_text_surely("Hello"));
    parser.process_chunk(" <wr").unwrap();
    assert!(!parser.is_last_block_text_surely("Hello <wr"));
    parser.process_chunk("ite_to_file>").unwrap();
    assert!(!parser.is_last_block_text_surely(""));
}

#[test]
fn reset_parser_behaves_as_new() {
    let mut parser = AssistantMessageParser::default();
    parser.process_chunk("old <read_file><args>x</args>").unwrap();
    parser.next_text_chunk();
    parser.reset();
    assert!(parser.get_content_blocks().is_empty());
    let blocks = parser.process_chunk(MESSAGE).unwrap();
    assert_eq!(blocks, parse_whole(MESSAGE));
    assert_eq!(parser.next_text_chunk(), Some("Let me look. Now write: done".to_owned()));
}

#[test]
fn finalize_marks_complete_and_is_idempotent() {
    let mut parser = AssistantMessageParser::default();
    parser.process_chunk("intro <read_file><args>a").unwrap();
    assert!(parser.get_content_blocks()[1].partial());
    parser.finalize_content_blocks();
    let once = parser.get_content_blocks();
    assert!(once.iter().all(|block| !block.partial()));
    assert_eq!(text_of(&once[0]), "intro");
    assert_eq!(tool_of(&once[1]).params.get("args").unwrap(), "a");
    parser.finalize_content_blocks();
    assert_eq!(parser.get_content_blocks(), once);
}

#[test]
fn clone_parses_on_independently() {
    let mut parser = AssistantMessageParser::default();
    parser.process_chunk("first <read_file>").unwrap();
    let mut copy = parser.clone();
    let a = parser.process_chunk("<args>p</args></read_file>").unwrap();
    let b = copy.process_chunk("<args>p</args></read_file>").unwrap();
    assert_eq!(a, b);
    copy.process_chunk(" more").unwrap();
    assert_eq!(parser.get_content_blocks().len(), 2);
    assert_eq!(copy.get_content_blocks().len(), 3);
}

#[test]
fn default_is_new_with_builtin_tools() {
    let mut a = AssistantMessageParser::default();
    let mut b = AssistantMessageParser::new(None, None);
    assert_eq!(a.process_chunk(MESSAGE).unwrap(), b.process_chunk(MESSAGE).unwrap());
}

#[test]
fn custom_tools_replace_the_builtin_ones() {
    let mut parser = AssistantMessageParser::new(Some(vec!["ping".into()]), Some(vec!["host".into()]));
    let blocks = parser
        .process_chunk("<read_file><path>x</path></read_file><ping><host>h</host></ping>")
        .unwrap();
    assert_eq!(blocks.len(), 2);
    assert_eq!(text_of(&blocks[0]), "<read_file><path>x</path></read_file>");
    assert_eq!(tool_of(&blocks[1]).params.get("host").unwrap(), "h");
}

#[test]
fn any_configured_parameter_is_read_in_any_tool() {
    let blocks = parse_whole("<read_file><path>x</path><args>y</args></read_file>");
    let tool = first_tool(&blocks);
    assert_eq!(tool.params.len(), 2);
    assert_eq!(tool.params.get("args").unwrap(), "y");
    assert_eq!(tool.params.get("path").unwrap(), "x");
}

#[test]
fn default_tool_names_follow_the_table() {
    let names = default_tool_names();
    assert_eq!(
        names,
        vec![
            "write_to_file",
            "update_todo_list",
            "search_files",
            "search_and_replace",
            "read_file",
            "list_files",
            "insert_content",
            "execute_command",
            "attempt_completion",
            "ask_followup_question",
            "new_task",
            "workflow_search",
        ]
    );
    let params = default_tool_param_names();
    assert_eq!(params.len(), 33);
    assert_eq!(&params[..4], &["path", "content", "line_count", "todos"]);
    assert_eq!(params.last().unwrap(), "per_page");
}

#[test]
fn default_tool_prefixes_are_every_tag_prefix_sorted() {
    let mut expected = Vec::new();
    for name in default_tool_names() {
        for end in 0..=name.len() {
            expected.push(format!("<{}", &name[..end]));
        }
    }
    expected.sort();
    let prefixes = default_tool_prefixes();
    assert_eq!(prefixes, expected);
    assert_eq!(prefixes.len(), 181);
    assert_eq!(prefixes[0], "<");
    assert!(prefixes.windows(2).all(|pair| pair[0] <= pair[1]));
    assert!(prefixes.contains(&"<read_file".to_owned()));
}

#[test]
fn overlong_parameter_is_abandoned_and_later_text_parsed() {
    let mut parser = AssistantMessageParser::default();
    parser.process_chunk("<execute_command><command>").unwrap();
    let long = "z".repeat(MAX_PARAM_LENGTH);
    let blocks = parser.process_chunk(&long).unwrap();
    assert_eq!(first_tool(&blocks).params.get("command").unwrap().len(), MAX_PARAM_LENGTH);
    let blocks = parser.process_chunk("z</command></execute_command> after").unwrap();
    let tool = first_tool(&blocks);
    assert!(!tool.partial);
    assert_eq!(tool.params.get("command").unwrap().len(), MAX_PARAM_LENGTH);
    assert_eq!(text_of(&blocks[1]), "after");
}

#[test]
fn try_process_chunk_refuses_a_cut_inside_a_character() {
    let mut parser = AssistantMessageParser::new(Some(vec!["x ".into()]), Some(vec![]));
    parser.process_chunk("é").unwrap();
    assert!(!parser.can_process_chunk("<x >"));
    assert_eq!(parser.try_process_chunk("<x >"), None);
    assert_eq!(
        parser.get_content_blocks(),
        vec![ContentBlock::Text(TextContent::new("é".to_owned(), true))]
    );
    let blocks = parser.try_process_chunk(" ok").unwrap().unwrap();
    assert_eq!(text_of(&blocks[0]), "é ok");
    assert!(parser.can_process_chunk("<x >"));
    assert_eq!(
        parser.try_process_chunk(&"w".repeat(MAX_ACCUMULATOR_SIZE)),
        Some(Err(ParserError::MessageTooLarge))
    );
}

#[test]
fn try_next_text_chunk_refuses_a_cut_inside_a_character() {
    let mut parser = AssistantMessageParser::default();
    parser.process_chunk("ab  <").unwrap();
    assert_eq!(parser.try_next_text_chunk(), Some(Some("ab  ".to_owned())));
    parser
        .process_chunk("read_file><args>x</args></read_file>é")
        .unwrap();
    assert!(!parser.next_text_chunk_defined());
    assert_eq!(parser.try_next_text_chunk(), None);
    assert_eq!(parser.try_next_text_chunk(), None);

    let mut fresh = AssistantMessageParser::default();
    fresh.process_chunk("plain").unwrap();
    assert_eq!(fresh.try_next_text_chunk(), Some(Some("plain".to_owned())));
    assert_eq!(fresh.try_next_text_chunk(), Some(None));
}

#[test]
fn only_configured_parameter_names_open_parameters() {
    let mut parser = AssistantMessageParser::new(Some(vec!["t".into()]), Some(vec!["a".into()]));
    let blocks = parser.process_chunk("<t><b>x</b><a> y </a></t>").unwrap();
    assert_eq!(blocks.len(), 1);
    let tool = tool_of(&blocks[0]);
    assert_eq!(tool.params.len(), 1);
    assert_eq!(tool.params.get("a").unwrap(), "y");
    assert_eq!(tool.params.get("b"), None);
}

#[test]
fn completed_blocks_never_change_again() {
    let mut parser = AssistantMessageParser::default();
    let first = parser
        .process_chunk("intro <list_files><path>src</path></list_files>")
        .unwrap();
    assert!(first.iter().all(|block| !block.partial()));
    let later = parser
        .process_chunk(" more <read_file><args>z</args></read_file> end")
        .unwrap();
    assert_eq!(&later[..first.len()], &first[..]);
}

#[test]
fn streamed_pieces_are_never_empty() {
    let mut parser = AssistantMessageParser::default();
    for chunk in ["a", " ", "<", "r", "e", "x", " b"] {
        parser.process_chunk(chunk).unwrap();
        while let Some(piece) = parser.next_text_chunk() {
            assert!(!piece.is_empty());
        }
    }
}
