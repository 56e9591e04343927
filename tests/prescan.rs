use html5ever::prescan::{declared_encoding, extract_label, readByte, AbortReason};

fn padded(pad: usize, tail: &str) -> Vec<u8> {
    let mut v = vec![b' '; pad];
    v.extend_from_slice(tail.as_bytes());
    v
}

#[test]
fn finds_meta_charset() {
    let r = readByte(b"<meta charset=\"iso-8859-1\">", true);
    assert_eq!(r, Ok("windows-1252"));
}

#[test]
fn same_outcome_when_split_into_pieces() {
    let whole: &[u8] = b"<meta charset=\"iso-8859-1\">";
    let at_once = readByte(whole, false);
    assert_eq!(at_once, Ok("windows-1252"));
    for split in [1usize, 3, 7, 15, 26] {
        let mut got = Vec::new();
        let mut outcome = Err(AbortReason::NotEnoughBytes);
        for piece in whole.chunks(split) {
            got.extend_from_slice(piece);
            outcome = readByte(&got, false);
            if outcome != Err(AbortReason::NotEnoughBytes) {
                break;
            }
        }
        assert_eq!(outcome, at_once);
    }
}

#[test]
fn declaration_past_the_limit_is_not_seen() {
    let late = padded(1025, "<meta charset=\"utf-8\">");
    assert_eq!(readByte(&late, true), Err(AbortReason::NoEncodingDetected));
    assert_eq!(readByte(&late, false), Err(AbortReason::NoEncodingDetected));
}

#[test]
fn declaration_inside_the_limit_is_seen() {
    let early = padded(1000, "<meta charset=utf-8>");
    assert!(early.len() < 1024);
    let mut long = early.clone();
    long.extend_from_slice(&[b' '; 200]);
    assert_eq!(readByte(&long, false), Ok("UTF-8"));
    assert_eq!(readByte(&early, true), Ok("UTF-8"));
}

#[test]
fn utf16_declaration_means_utf8() {
    assert_eq!(readByte(b"<meta charset=\"utf-16le\">", true), Ok("UTF-8"));
    assert_eq!(readByte(b"<meta charset='UTF-16BE'>", true), Ok("UTF-8"));
}

#[test]
fn commented_declaration_is_ignored() {
    let r = readByte(b"<!-- <meta charset=\"x\"> --> <p>hi</p>", true);
    assert_eq!(r, Err(AbortReason::NoEncodingDetected));
    let r = readByte(b"<!-- <meta charset=\"utf-8\"> --> <p>hi</p>", true);
    assert_eq!(r, Err(AbortReason::NoEncodingDetected));
}

#[test]
fn declaration_after_comment_is_found() {
    let r = readByte(b"<!-- a -- b --><meta charset=\"koi8-r\">", true);
    assert_eq!(r, Ok("KOI8-R"));
}

#[test]
fn unknown_label_does_not_stop_the_scan() {
    let input: &[u8] = b"<meta charset=\"bogus-charset\"> <meta http-equiv=\"content-type\" content=\"text/html; charset=utf-8\">";
    assert_eq!(readByte(input, true), Ok("UTF-8"));
}

#[test]
fn pragma_needs_http_equiv() {
    let r = readByte(b"<meta content=\"text/html; charset=koi8-r\">", true);
    assert_eq!(r, Err(AbortReason::NoEncodingDetected));
    let r = readByte(
        b"<META CONTENT=\"text/html; charset=koi8-r\" HTTP-EQUIV=\"Content-Type\">",
        true,
    );
    assert_eq!(r, Ok("KOI8-R"));
}

#[test]
fn short_incomplete_input_asks_for_more() {
    assert_eq!(readByte(b"<html><head>", false), Err(AbortReason::NotEnoughBytes));
    assert_eq!(readByte(b"<meta charset=utf-8", false), Err(AbortReason::NotEnoughBytes));
    assert_eq!(readByte(b"", false), Err(AbortReason::NotEnoughBytes));
    assert_eq!(readByte(b"", true), Err(AbortReason::NoEncodingDetected));
}

#[test]
fn unterminated_value_at_end_is_not_a_declaration() {
    assert_eq!(readByte(b"<meta charset=utf-8", true), Err(AbortReason::NoEncodingDetected));
}

#[test]
fn quoted_gt_does_not_end_other_tag() {
    let r = readByte(b"<a title=\"<meta charset=koi8-r>\"> <meta charset=latin2>", true);
    assert_eq!(r, Ok("ISO-8859-2"));
}

#[test]
fn end_tags_are_not_meta() {
    let r = readByte(b"</meta charset=utf-8>", true);
    assert_eq!(r, Err(AbortReason::NoEncodingDetected));
}

#[test]
fn tag_name_must_be_exactly_meta() {
    let r = readByte(b"<metas charset=utf-8>", true);
    assert_eq!(r, Err(AbortReason::NoEncodingDetected));
    let r = readByte(b"<MeTa\tcharset=utf-8>", true);
    assert_eq!(r, Ok("UTF-8"));
}

#[test]
fn extracts_label_from_content() {
    assert_eq!(extract_label(b"text/html; charset=utf-8"), Some(b"utf-8".to_vec()));
    assert_eq!(extract_label(b"text/html;CHARSET = 'koi8-r' x"), Some(b"koi8-r".to_vec()));
    assert_eq!(extract_label(b"charset=\"a b\""), Some(b"a b".to_vec()));
    assert_eq!(extract_label(b"charset=abc;def"), Some(b"abc".to_vec()));
    assert_eq!(extract_label(b"charset x charset=y"), Some(b"y".to_vec()));
    assert_eq!(extract_label(b"charset=\"open"), None);
    assert_eq!(extract_label(b"text/html"), None);
    assert_eq!(extract_label(b"charset="), None);
}

#[test]
fn declared_encoding_replaces_utf16() {
    assert_eq!(declared_encoding("UTF-16LE"), "UTF-8");
    assert_eq!(declared_encoding("UTF-16BE"), "UTF-8");
    assert_eq!(declared_encoding("windows-1252"), "windows-1252");
}

#[test]
fn labels_resolve_to_canonical_names() {
    assert_eq!(readByte(b"<meta charset=latin1>", true), Ok("windows-1252"));
    assert_eq!(readByte(b"<meta charset=\" Shift_JIS \">", true), Ok("Shift_JIS"));
}
