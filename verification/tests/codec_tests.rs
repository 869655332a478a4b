use twk::codec::{encode_record, parse_record};
use twk::numbers::{dec_of, parse_dec_at};
use twk::record::Information;

fn rec(id: u128, tags: &[&str], name: &str, data: &str) -> Information {
    Information {
        id,
        tags: tags.iter().map(|t| t.to_string()).collect(),
        name: name.to_string(),
        data: data.to_string(),
    }
}

#[test]
fn encode_exact_form() {
    let r = rec(7, &["a"], "hi", "x\ny");
    let payload = encode_record(&r);
    assert_eq!(payload, "twk 1\nid 7\nname 2\nhi\ntags 1\ntag 1\na\ndata 3\nx\ny\n");
}

#[test]
fn encode_empty_fields() {
    let r = rec(0, &[], "", "");
    let payload = encode_record(&r);
    assert_eq!(payload, "twk 1\nid 0\nname 0\n\ntags 0\ndata 0\n\n");
}

#[test]
fn parse_reads_back_what_encode_wrote() {
    let r = rec(
        340282366920938463463374607431768211455,
        &["one", "two words", ""],
        "a name with spaces",
        "body\nwith\nnewlines and tag 3\ncounterfeit framing",
    );
    let payload = encode_record(&r);
    let back = parse_record(&payload).expect("canonical form must parse");
    assert_eq!(back.id, r.id);
    assert_eq!(back.tags, r.tags);
    assert_eq!(back.name, r.name);
    assert_eq!(back.data, r.data);
}

#[test]
fn parse_unicode_payloads() {
    let r = rec(9, &["déjà"], "naïve café", "ünïcödé\n本文");
    let payload = encode_record(&r);
    let back = parse_record(&payload).expect("unicode form must parse");
    assert_eq!(back.name, r.name);
    assert_eq!(back.data, r.data);
    assert_eq!(back.tags, r.tags);
}

#[test]
fn parse_rejects_garbage() {
    assert!(parse_record("not a record").is_none());
    assert!(parse_record("").is_none());
    assert!(parse_record("twk 1\nid 7\nname 2\nhi").is_none());
    // wrong length prefix
    assert!(parse_record("twk 1\nid 7\nname 3\nhi\ntags 0\ndata 0\n\n").is_none());
    // trailing bytes after the record
    assert!(parse_record("twk 1\nid 7\nname 2\nhi\ntags 0\ndata 0\n\nx").is_none());
}

#[test]
fn decimal_digits_render() {
    assert_eq!(dec_of(0).into_iter().collect::<String>(), "0");
    assert_eq!(dec_of(12345).into_iter().collect::<String>(), "12345");
    assert_eq!(
        dec_of(u128::MAX).into_iter().collect::<String>(),
        "340282366920938463463374607431768211455"
    );
}

#[test]
fn decimal_parse_stops_at_nondigit() {
    let v: Vec<char> = "42x".chars().collect();
    let (val, end) = parse_dec_at(&v, 0, u128::MAX).expect("digits at start");
    assert_eq!(val, 42);
    assert_eq!(end, 2);
    let w: Vec<char> = "x42".chars().collect();
    assert!(parse_dec_at(&w, 0, u128::MAX).is_none());
}

#[test]
fn parse_rejects_wrong_tag_count() {
    // claims two tags but carries one
    let text = "twk 1\nid 7\nname 2\nhi\ntags 2\ntag 1\na\ndata 0\n\n";
    assert!(parse_record(text).is_none());
}
