use gene_core::llm::{StreamEvent, StreamParser};
use gene_core::tools::ToolCall;

fn answer(events: &[StreamEvent]) -> String {
    events
        .iter()
        .filter_map(|e| match e {
            StreamEvent::AnswerDelta(s) => Some(s.as_str()),
            _ => None,
        })
        .collect()
}

fn thinking(events: &[StreamEvent]) -> String {
    events
        .iter()
        .filter_map(|e| match e {
            StreamEvent::ThinkDelta(s) => Some(s.as_str()),
            _ => None,
        })
        .collect()
}

fn calls(events: &[StreamEvent]) -> Vec<String> {
    events
        .iter()
        .filter_map(|e| match e {
            StreamEvent::ToolCall(t) => Some(t.command.clone()),
            _ => None,
        })
        .collect()
}

fn drive(chunks: &[&str]) -> Vec<StreamEvent> {
    drive_mode(chunks, true)
}

fn drive_mode(chunks: &[&str], detect: bool) -> Vec<StreamEvent> {
    let mut p = StreamParser::new(detect);
    let mut out = Vec::new();
    for c in chunks {
        out.extend(p.push(c));
    }
    out.extend(p.flush());
    out
}

#[test]
fn plain_answer() {
    let ev = drive(&["hello ", "world"]);
    assert_eq!(answer(&ev), "hello world");
}

#[test]
fn think_block_split_across_chunks() {
    let ev = drive(&["pre <th", "ink>reasoning</thi", "nk> post"]);
    assert_eq!(answer(&ev), "pre  post");
    assert_eq!(thinking(&ev), "reasoning");
    assert!(ev.contains(&StreamEvent::ThinkStart));
    assert!(ev.contains(&StreamEvent::ThinkEnd));
}

#[test]
fn run_fence_becomes_tool_call() {
    let ev = drive(&["sure:\n```", "run\nls -la\n``", "`\n"]);
    assert_eq!(calls(&ev), vec!["ls -la".to_string()]);
    assert!(answer(&ev).contains("sure:"));
}

#[test]
fn chat_mode_keeps_run_block_as_text() {
    // In Chat mode, a ```run fence is ordinary text, not a tool call.
    let ev = drive_mode(&["try:\n```run\nls\n```\n"], false);
    assert_eq!(calls(&ev).len(), 0);
    assert!(answer(&ev).contains("```run"));
    assert!(answer(&ev).contains("ls"));
}

#[test]
fn marker_at_exact_boundary() {
    let ev = drive(&["<think>", "x", "</think>", "y"]);
    assert_eq!(answer(&ev), "y");
}

#[test]
fn unterminated_think_flushes() {
    let ev = drive(&["<think>still thinking"]);
    assert_eq!(thinking(&ev), "still thinking");
    assert!(ev.contains(&StreamEvent::ThinkEnd));
}

#[test]
fn unterminated_run_block_is_answer_text() {
    let ev = drive(&["```run\nls"]);
    assert!(calls(&ev).is_empty());
    assert_eq!(answer(&ev), "ls");
}

#[test]
fn blank_run_block_is_no_command() {
    let ev = drive(&["a```run\n  \n```b"]);
    assert!(calls(&ev).is_empty());
    assert_eq!(answer(&ev), "ab");
}

#[test]
fn partial_markers_are_held_back() {
    let mut p = StreamParser::new(true);
    assert_eq!(p.push("ab<thi"), vec![StreamEvent::AnswerDelta("ab".to_string())]);
    // Not a marker after all.
    assert_eq!(
        p.push("s>"),
        vec![StreamEvent::AnswerDelta("<this>".to_string())]
    );
    assert_eq!(p.flush(), vec![]);
}

#[test]
fn cutting_makes_no_difference() {
    let reply = "one <think>two</think>\nthree ```run\nls -la\n``` four";
    let whole = drive(&[reply]);
    let mut p = StreamParser::new(true);
    let mut pieces = Vec::new();
    for c in reply.chars() {
        pieces.extend(p.push(&c.to_string()));
    }
    pieces.extend(p.flush());
    assert_eq!(answer(&pieces), answer(&whole));
    assert_eq!(thinking(&pieces), "two");
    assert_eq!(thinking(&whole), "two");
    assert_eq!(calls(&pieces), calls(&whole));
    assert_eq!(calls(&whole), vec!["ls -la".to_string()]);
}

#[test]
fn nothing_is_lost_where_blocks_are_text() {
    let reply = "a ```run\nx\n``` <thin </think> b";
    assert_eq!(answer(&drive_mode(&[reply], false)), reply);
}

#[test]
fn reasoning_field_is_thinking() {
    let p = StreamParser::default();
    assert_eq!(
        p.push_reasoning("<think>hm"),
        vec![StreamEvent::ThinkDelta("<think>hm".to_string())]
    );
    assert_eq!(p.push_reasoning(""), vec![]);
}

#[test]
fn flushed_parser_starts_over() {
    let mut p = StreamParser::new(true);
    p.push("<think>a");
    assert_eq!(p.flush(), vec![StreamEvent::ThinkEnd]);
    assert_eq!(p.push("b"), vec![StreamEvent::AnswerDelta("b".to_string())]);
}

#[test]
fn carriage_return_before_the_command_is_dropped() {
    let ev = drive(&["```run\r\nls\r\n```"]);
    assert_eq!(
        ev,
        vec![StreamEvent::ToolCall(ToolCall { command: "ls".to_string() })]
    );
    assert_eq!(ev.clone(), ev);
}

/// Every way of cutting `reply` into three chunks.
fn cuts(reply: &str) -> Vec<Vec<String>> {
    let chars: Vec<char> = reply.chars().collect();
    let piece = |lo: usize, hi: usize| chars[lo..hi].iter().collect::<String>();
    let n = chars.len();
    let mut out = Vec::new();
    for i in 0..=n {
        for j in i..=n {
            out.push(vec![piece(0, i), piece(i, j), piece(j, n)]);
        }
    }
    out
}

#[test]
fn no_marker_is_taken_for_text() {
    let reply = "a <<think>b </thin</think> c ```run\nx `y` ``z``\n```` ```ru <think>d";
    for detect in [true, false] {
        for chunks in cuts(reply) {
            let mut p = StreamParser::new(detect);
            for c in &chunks {
                for e in p.push(c) {
                    match e {
                        StreamEvent::AnswerDelta(s) => {
                            assert!(!s.is_empty() && !s.contains("<think>"));
                            assert!(!detect || !s.contains("```run"));
                        }
                        StreamEvent::ThinkDelta(s) => {
                            assert!(!s.is_empty() && !s.contains("</think>"));
                        }
                        StreamEvent::ToolCall(t) => {
                            assert!(detect);
                            assert_eq!(t.command, "x `y` ``z``");
                        }
                        StreamEvent::ThinkStart | StreamEvent::ThinkEnd => {}
                        StreamEvent::Done | StreamEvent::Error(_) => panic!("not of a push"),
                    }
                }
            }
        }
    }
}

#[test]
fn a_reply_is_kept_and_its_reasoning_bracketed() {
    let reply = "a <think>b</think> ```run\nx\n``` </think><think>c<think>d</th";
    for detect in [true, false] {
        for chunks in cuts(reply) {
            let pieces: Vec<&str> = chunks.iter().map(|c| c.as_str()).collect();
            let mut open = false;
            let mut text = String::new();
            for e in drive_mode(&pieces, detect) {
                match e {
                    StreamEvent::ThinkStart => {
                        assert!(!open);
                        open = true;
                        text.push_str("<think>");
                    }
                    StreamEvent::ThinkEnd => {
                        assert!(open);
                        open = false;
                        text.push_str("</think>");
                    }
                    StreamEvent::ThinkDelta(s) => {
                        assert!(open);
                        text.push_str(&s);
                    }
                    StreamEvent::AnswerDelta(s) => {
                        assert!(!open);
                        text.push_str(&s);
                    }
                    _ => assert!(!open),
                }
            }
            assert!(!open);
            if !detect {
                // The reply leaves its last reasoning open; the end of the stream closes it.
                assert_eq!(text, format!("{reply}</think>"));
            }
        }
    }
}
