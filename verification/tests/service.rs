use azookey::capability::{capability_from, search_path_dirs};
use azookey::service::{dedup_suggestions, iikanji_reply, trim_context, MyAzookeyService, Suggestion};

fn sug(text: &str, subtext: &str, count: i32) -> Suggestion {
    Suggestion { text: text.to_string(), subtext: subtext.to_string(), corresponding_count: count }
}

#[test]
fn dedup_keeps_first_of_each_text() {
    let out = dedup_suggestions(vec![
        sug("日本語", "a", 3),
        sug("二本語", "b", 3),
        sug("日本語", "c", 2),
        sug("にほんご", "d", 4),
        sug("二本語", "e", 1),
    ]);
    let texts: Vec<&str> = out.iter().map(|s| s.text.as_str()).collect();
    assert_eq!(texts, vec!["日本語", "二本語", "にほんご"]);
    assert_eq!(out[0].subtext, "a");
    assert_eq!(out[0].corresponding_count, 3);
    assert_eq!(out[1].subtext, "b");
}

#[test]
fn dedup_of_empty_is_empty() {
    assert!(dedup_suggestions(Vec::new()).is_empty());
}

#[test]
fn dedup_twice_is_dedup_once() {
    let once = dedup_suggestions(vec![sug("a", "", 1), sug("a", "", 2), sug("b", "", 1)]);
    let twice = dedup_suggestions(once.clone());
    assert_eq!(once.len(), twice.len());
    for (x, y) in once.iter().zip(twice.iter()) {
        assert_eq!(x.text, y.text);
        assert_eq!(x.corresponding_count, y.corresponding_count);
    }
}

#[test]
fn context_is_last_nonempty_line() {
    assert_eq!(trim_context("first\rsecond\r\r"), "second");
    assert_eq!(trim_context("only"), "only");
    assert_eq!(trim_context("a\rb"), "b");
}

#[test]
fn context_of_only_carriage_returns_is_empty() {
    assert_eq!(trim_context(""), "");
    assert_eq!(trim_context("\r\r"), "");
}

#[test]
fn context_keeps_line_feeds() {
    assert_eq!(trim_context("x\r\ny"), "\ny");
}

#[test]
fn iikanji_success_carries_result() {
    let reply = iikanji_reply(Some("いい感じ".to_string()));
    assert!(reply.success);
    assert_eq!(reply.result, "いい感じ");
    assert_eq!(reply.error, "");
}

#[test]
fn iikanji_failure_carries_message() {
    let reply = iikanji_reply(None);
    assert!(!reply.success);
    assert_eq!(reply.result, "");
    assert_eq!(reply.error, "変換に失敗しました");
}

#[test]
fn service_is_stateless() {
    let service = MyAzookeyService::default();
    assert_eq!(format!("{:?}", service), "MyAzookeyService");
}

#[test]
fn path_dirs_split_on_semicolons() {
    let dirs = search_path_dirs("C:\\Windows;C:\\CUDA\\bin;;D:\\tools");
    assert_eq!(dirs, vec!["C:\\Windows", "C:\\CUDA\\bin", "", "D:\\tools"]);
    assert_eq!(search_path_dirs(""), vec![""]);
}

#[test]
fn capability_needs_every_cuda_library() {
    let c = capability_from(&vec![true, false], true);
    assert!(c.cpu);
    assert!(!c.cuda);
    assert!(c.vulkan);
    let c = capability_from(&vec![true, true], false);
    assert!(c.cuda);
    assert!(!c.vulkan);
}
