use mailfind::mail::{display_lines, display_width, is_shown_as_text, Line, MailError};

fn shown(lines: Vec<Line>) -> Vec<String> {
    lines
        .into_iter()
        .map(|l| match l {
            Line::Text(t) => t,
            Line::Html(h) => format!("<html>{}", h),
        })
        .collect()
}

#[test]
fn width_defaults_to_79() {
    assert_eq!(display_width(None), 79);
    assert_eq!(display_width(Some(120)), 120);
}

#[test]
fn only_plain_and_html_are_shown() {
    assert!(is_shown_as_text(&"text/plain".to_string()));
    assert!(is_shown_as_text(&"text/html".to_string()));
    assert!(!is_shown_as_text(&"image/png".to_string()));
    assert!(!is_shown_as_text(&"multipart/alternative".to_string()));
}

#[test]
fn simple_message_shows_subject_type_and_body() {
    let (lines, outcome) = display_lines(b"Subject: Hello there\nFrom: a@b.c\n\nThis is the body &amp; more");
    assert!(outcome.is_ok());
    assert_eq!(shown(lines), vec!["Subject: Hello there", "mimetype: text/plain", "This is the body & more"]);
}

#[test]
fn plain_body_with_bad_reference_is_shown_as_is() {
    let (lines, outcome) = display_lines(b"Subject: S\n\nx &nosuchentity; y");
    assert!(outcome.is_ok());
    assert_eq!(shown(lines), vec!["Subject: S", "mimetype: text/plain", "x &nosuchentity; y"]);
}

#[test]
fn nested_parts_are_shown_each_before_its_subparts() {
    let raw = [
        "Subject: Multi\n",
        "Content-Type: multipart/mixed; boundary=outer\n",
        "\n",
        "--outer\n",
        "Content-Type: multipart/alternative; boundary=inner\n",
        "\n",
        "--inner\n",
        "Content-Type: text/plain\n",
        "\n",
        "plain &lt;text&gt;\n",
        "--inner\n",
        "Content-Type: text/html\n",
        "\n",
        "<p>Hello</p>\n",
        "--inner--\n",
        "--outer\n",
        "Content-Type: image/png\n",
        "Subject: picture\n",
        "\n",
        "xyz\n",
        "--outer--\n",
    ]
    .concat();
    let (lines, outcome) = display_lines(raw.as_bytes());
    assert!(outcome.is_ok());
    assert_eq!(
        shown(lines),
        vec![
            "Subject: Multi",
            "mimetype: multipart/mixed",
            "mimetype: multipart/alternative",
            "mimetype: text/plain",
            "plain <text>",
            "mimetype: text/html",
            "<html><p>Hello</p>",
            "Subject: picture",
            "mimetype: image/png",
        ]
    );
}

#[test]
fn undecodable_body_stops_after_its_head() {
    let raw = b"Subject: Bad\nContent-Type: text/plain\nContent-Transfer-Encoding: base64\n\n!!!!";
    let (lines, outcome) = display_lines(raw);
    assert_eq!(shown(lines), vec!["Subject: Bad", "mimetype: text/plain"]);
    assert!(matches!(outcome, Err(MailError::Body(_))));
}

#[test]
fn undecodable_body_of_an_unshown_part_is_not_read() {
    let raw = b"Content-Type: image/png\nContent-Transfer-Encoding: base64\n\n!!!!";
    let (lines, outcome) = display_lines(raw);
    assert!(outcome.is_ok());
    assert_eq!(shown(lines), vec!["mimetype: image/png"]);
}
