use codekata::wc::{get_statistics, Cli, ResultWc};

fn all_flags() -> Cli {
    Cli {
        count_lines: false,
        count_words: false,
        count_chars: false,
        count_bytes: false,
        count_all: true,
        path: "notes.txt".to_string(),
    }
}

#[test]
fn statistics_count_lines_words_and_chars() {
    let lines = vec!["hello world".to_string(), "foo".to_string()];
    let args = all_flags();
    let r = get_statistics(&lines, &args, "notes.txt".to_string());
    assert_eq!(r.lines, 2);
    assert_eq!(r.words, 3);
    assert_eq!(r.chars, 14);
    assert_eq!(r.bytes, 0);
    assert_eq!(r.file_name, "notes.txt");
}

#[test]
fn statistics_count_bytes_only_when_asked() {
    let lines = vec!["abc".to_string(), "de".to_string()];
    let args = Cli {
        count_lines: false,
        count_words: false,
        count_chars: false,
        count_bytes: true,
        count_all: false,
        path: "b.txt".to_string(),
    };
    let r = get_statistics(&lines, &args, "b.txt".to_string());
    assert_eq!(r.lines, 0);
    assert_eq!(r.words, 0);
    assert_eq!(r.chars, 0);
    assert_eq!(r.bytes, 5);
}

#[test]
fn format_skips_zero_counters() {
    let r = ResultWc {
        lines: 2,
        words: 3,
        chars: 14,
        bytes: 0,
        file_name: "notes.txt".to_string(),
    };
    assert_eq!(r.format(), "2 3 14 notes.txt");
}

#[test]
fn format_writes_multi_digit_counts() {
    let r = ResultWc {
        lines: 120,
        words: 0,
        chars: 0,
        bytes: 1005,
        file_name: "big.log".to_string(),
    };
    assert_eq!(r.format(), "120 1005 big.log");
}
