use rust_ps::boj::{boj_sample_inputs, boj_sample_outputs, check_if_correct, exec_outcome, get_boj_samples, parse_html};

#[test]
fn identical_outputs_match() {
    assert!(check_if_correct("1 2\n3\n", "1 2\n3\n"));
    assert!(check_if_correct("", ""));
}

#[test]
fn trailing_whitespace_is_ignored() {
    assert!(check_if_correct("42", "42\n"));
    assert!(check_if_correct("42\n\n\n", "42"));
    assert!(check_if_correct("a\nb  \t\n", "a\nb"));
    assert!(check_if_correct("x\u{3000}\u{a0}", "x"));
    assert!(check_if_correct("\n \n", ""));
}

#[test]
fn crlf_line_endings_match_lf() {
    assert!(check_if_correct("1\r\n2\r\n", "1\n2\n"));
}

#[test]
fn differences_inside_lines_count() {
    assert!(!check_if_correct("1 2\n", "1  2\n"));
    assert!(!check_if_correct("a \nb", "a\nb"));
    assert!(!check_if_correct("1\n2", "1\n3"));
    assert!(!check_if_correct("1\n\n2", "1\n2"));
    assert!(!check_if_correct("1", "1\n2"));
    assert!(!check_if_correct(" 1", "1"));
}

fn page(samples: &[(&str, &str)]) -> String {
    let mut s = String::from("<html><body><h1>Problem</h1>");
    for (i, (input, output)) in samples.iter().enumerate() {
        s += &format!(
            "<pre id=\"sample-input-{}\">{}</pre><pre id=\"sample-output-{}\">{}</pre>",
            i + 1,
            input,
            i + 1,
            output
        );
    }
    s += "</body></html>";
    s
}

#[test]
fn samples_are_read_in_order() {
    let html = page(&[("1 2\n", "3\n"), ("5 5\n", "10\n")]);
    assert_eq!(
        get_boj_samples(&html),
        vec![
            ("1 2\n".to_string(), "3\n".to_string()),
            ("5 5\n".to_string(), "10\n".to_string())
        ]
    );
}

#[test]
fn samples_stop_at_the_first_missing_number() {
    let html = "<pre id=\"sample-input-1\">a</pre><pre id=\"sample-output-1\">b</pre>\
                <pre id=\"sample-input-3\">c</pre><pre id=\"sample-output-3\">d</pre>";
    assert_eq!(get_boj_samples(html), vec![("a".to_string(), "b".to_string())]);
}

#[test]
fn samples_pair_up_to_the_shorter_kind() {
    let html = "<pre id=\"sample-input-1\">a</pre><pre id=\"sample-input-2\">c</pre>\
                <pre id=\"sample-output-1\">b</pre>";
    assert_eq!(get_boj_samples(html), vec![("a".to_string(), "b".to_string())]);
    assert_eq!(get_boj_samples("<p>no samples</p>"), Vec::<(String, String)>::new());
}

#[test]
fn sample_html_is_inner_html() {
    let html = "<pre id=\"sample-input-1\">1 &lt; 2</pre><pre id=\"sample-output-1\"><b>x</b></pre>";
    assert_eq!(
        get_boj_samples(html),
        vec![("1 &lt; 2".to_string(), "<b>x</b>".to_string())]
    );
}

#[test]
fn sample_numbers_are_decimal() {
    let mut samples = Vec::new();
    for i in 0..12 {
        samples.push((i.to_string(), (i * 2).to_string()));
    }
    let refs: Vec<(&str, &str)> = samples.iter().map(|(a, b)| (a.as_str(), b.as_str())).collect();
    let got = get_boj_samples(&page(&refs));
    assert_eq!(got.len(), 12);
    assert_eq!(got[10], ("10".to_string(), "20".to_string()));
    assert_eq!(got[11], ("11".to_string(), "22".to_string()));
}

#[test]
fn appending_whitespace_keeps_the_verdict() {
    for s in ["", "a", "1 2\n3", "x\r\ny"] {
        for w in ["", " ", "\n", "\t\r\n \u{2003}"] {
            let t = format!("{}{}", s, w);
            assert!(check_if_correct(&t, s));
            assert!(check_if_correct(s, &t));
        }
    }
}

#[test]
fn inputs_and_outputs_are_read_separately() {
    let html = "<pre id=\"sample-input-1\">a</pre><pre id=\"sample-input-2\">c</pre>\
                <pre id=\"sample-output-1\">b</pre>";
    let page = parse_html(html);
    assert_eq!(boj_sample_inputs(&page), vec!["a".to_string(), "c".to_string()]);
    assert_eq!(boj_sample_outputs(&page), vec!["b".to_string()]);
    assert_eq!(boj_sample_inputs(&parse_html("")), Vec::<String>::new());
}

#[test]
fn exec_outcome_prefers_stderr() {
    assert_eq!(exec_outcome(b"42\n", b""), Ok("42\n".to_string()));
    assert_eq!(exec_outcome(b"42\n", b"panic"), Err("panic".to_string()));
    assert_eq!(exec_outcome(b"", b""), Ok(String::new()));
    let bad = exec_outcome(&[0xff, 0x41], b"");
    assert!(matches!(bad, Err(ref m) if m.starts_with("stdout is not utf8: ")));
    let bad = exec_outcome(b"ok", &[0xc3]);
    assert!(matches!(bad, Err(ref m) if m.starts_with("stderr is not utf8: ")));
}
