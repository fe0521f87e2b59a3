use tmpl::{to_io_error, Error, EscapePattern, IoErrorKind, Mapping, TemplatingReader, Value};

fn sample() -> Mapping {
    let mut m = Mapping::new();
    m.insert("name".to_string(), Value::String("bob".to_string()));
    m.insert("flag".to_string(), Value::Bool(true));
    m
}

fn whole(d: &Mapping, chunks: &[&[u8]]) -> Result<Vec<u8>, Error> {
    let p = EscapePattern::default();
    let mut reader = TemplatingReader::new(d, &p, b'%');
    let mut out = Vec::new();
    for chunk in chunks {
        reader.process(chunk)?;
        out.extend(reader.drain(usize::MAX));
    }
    reader.finish();
    out.extend(reader.drain(usize::MAX));
    Ok(out)
}

#[test]
fn delimiter_cut_between_two_chunks_is_found() {
    let d = sample();
    assert_eq!(whole(&d, &[b"Hello {", b"{name}}!"]), Ok(b"Hello bob!".to_vec()));
    assert_eq!(whole(&d, &[b"Hello {{name}", b"}!"]), Ok(b"Hello bob!".to_vec()));
    assert_eq!(whole(&d, &[b"Hello {{na", b"me}}!"]), Ok(b"Hello bob!".to_vec()));
}

#[test]
fn every_cut_of_a_template_renders_the_same() {
    let d = sample();
    let template: &[u8] = b"a{b{{name}}c{{%d}}e{{#IF flag\n[{{name}}]\n}}f{";
    let expected = whole(&d, &[template]).unwrap();
    assert_eq!(expected, b"a{bbobc{{d}}e[bob]f{".to_vec());
    for i in 0..=template.len() {
        assert_eq!(whole(&d, &[&template[..i], &template[i..]]), Ok(expected.clone()));
        for j in i..=template.len() {
            assert_eq!(
                whole(&d, &[&template[..i], &template[i..j], &template[j..]]),
                Ok(expected.clone())
            );
        }
    }
}

#[test]
fn byte_by_byte_renders_the_same() {
    let d = sample();
    let template: &[u8] = b"x{{name}}y{{#IFNOT flag\nno\n}}z";
    let chunks: Vec<&[u8]> = template.chunks(1).collect();
    assert_eq!(whole(&d, &chunks), Ok(b"xbobyz".to_vec()));
}

#[test]
fn partial_delimiter_is_held_back_until_it_is_decided() {
    let d = sample();
    let p = EscapePattern::default();
    let mut reader = TemplatingReader::new(&d, &p, b'%');
    assert_eq!(reader.process(b"ab{"), Ok(()));
    assert_eq!(reader.drain(10), b"ab".to_vec());
    assert_eq!(reader.process(b"c"), Ok(()));
    assert_eq!(reader.drain(10), b"{c".to_vec());
    assert_eq!(reader.process(b"{"), Ok(()));
    assert_eq!(reader.drain(10), Vec::<u8>::new());
    reader.finish();
    assert_eq!(reader.drain(10), b"{".to_vec());
}

#[test]
fn nothing_is_rendered_while_an_expression_is_open() {
    let d = sample();
    let p = EscapePattern::default();
    let mut reader = TemplatingReader::new(&d, &p, b'%');
    assert_eq!(reader.process(b"a{{na"), Ok(()));
    assert_eq!(reader.drain(10), b"a".to_vec());
    assert_eq!(reader.process(b"me"), Ok(()));
    assert_eq!(reader.drain(10), Vec::<u8>::new());
    assert_eq!(reader.process(b"}}"), Ok(()));
    assert_eq!(reader.drain(10), b"bob".to_vec());
}

#[test]
fn drain_hands_out_oldest_first_and_keeps_the_rest() {
    let d = sample();
    let p = EscapePattern::default();
    let mut reader = TemplatingReader::new(&d, &p, b'%');
    assert_eq!(reader.process(b"abcdefg"), Ok(()));
    assert_eq!(reader.drain(0), Vec::<u8>::new());
    assert_eq!(reader.drain(3), b"abc".to_vec());
    assert_eq!(reader.drain(2), b"de".to_vec());
    assert_eq!(reader.drain(10), b"fg".to_vec());
    assert_eq!(reader.drain(10), Vec::<u8>::new());
}

#[test]
fn read_scans_the_chunk_and_fills_the_buffer() {
    let d = sample();
    let p = EscapePattern::default();
    let mut reader = TemplatingReader::new(&d, &p, b'%');
    let mut buf = *b"Hi {{name}}!....";
    assert_eq!(reader.read(&mut buf, 12), Ok(7));
    assert_eq!(&buf, b"Hi bob!me}}!....");
}

#[test]
fn read_keeps_what_does_not_fit_for_the_next_call() {
    let d = sample();
    let p = EscapePattern::default();
    let mut reader = TemplatingReader::new(&d, &p, b'%');
    let mut buf = *b"{{name}}";
    assert_eq!(reader.read(&mut buf[..], 8), Ok(3));
    assert_eq!(&buf, b"bobame}}");
    let mut small = *b"xyz!";
    assert_eq!(reader.read(&mut small[..2], 2), Ok(2));
    assert_eq!(&small, b"xyz!");
    assert_eq!(reader.read(&mut small[..2], 0), Ok(0));
    let mut next = *b"abcdef";
    assert_eq!(reader.read(&mut next[..4], 4), Ok(4));
    assert_eq!(&next, b"abcdef");
    let mut big = [0u8; 4];
    assert_eq!(reader.read(&mut big, 0), Ok(0));
}

#[test]
fn read_may_write_nothing_while_more_is_to_come() {
    let d = sample();
    let p = EscapePattern::default();
    let mut reader = TemplatingReader::new(&d, &p, b'%');
    let mut buf = *b"{{na";
    assert_eq!(reader.read(&mut buf, 4), Ok(0));
    assert_eq!(&buf, b"{{na");
    let mut buf = *b"me}}";
    assert_eq!(reader.read(&mut buf, 4), Ok(3));
    assert_eq!(&buf, b"bob}");
}

#[test]
fn read_with_an_empty_buffer_only_scans() {
    let d = sample();
    let p = EscapePattern::default();
    let mut reader = TemplatingReader::new(&d, &p, b'%');
    let mut empty: [u8; 0] = [];
    assert_eq!(reader.read(&mut empty, 0), Ok(0));
    assert_eq!(reader.process(b"abc"), Ok(()));
    assert_eq!(reader.read(&mut empty, 0), Ok(0));
    assert_eq!(reader.drain(10), b"abc".to_vec());
}

#[test]
fn failure_stops_the_read_with_the_error() {
    let d = sample();
    let p = EscapePattern::default();
    let mut reader = TemplatingReader::new(&d, &p, b'%');
    assert_eq!(
        reader.process(b"a{{nobody}}b"),
        Err(Error::MissingConfigValue("nobody".to_string()))
    );
    let mut reader = TemplatingReader::new(&d, &p, b'%');
    let mut buf = *b"{{#IF flag}}";
    assert_eq!(reader.read(&mut buf, 12), Err(Error::ParseError));
    assert_eq!(&buf, b"{{#IF flag}}");
}

#[test]
fn reader_limit_on_nesting_can_be_set() {
    let d = sample();
    let p = EscapePattern::default();
    let template = b"{{#IF flag\n{{name}}\n}}";
    let mut deep = TemplatingReader::bounded(&d, &p, b'%', 2);
    assert_eq!(deep.process(template), Ok(()));
    assert_eq!(deep.drain(10), b"bob".to_vec());
    let mut flat = TemplatingReader::bounded(&d, &p, b'%', 1);
    assert_eq!(flat.process(template), Err(Error::NestingTooDeep));
}

#[test]
fn to_io_error_wraps_the_failure_as_other() {
    let e = to_io_error(Error::ParseError);
    assert_eq!(e.kind, IoErrorKind::Other);
    assert_eq!(e.source, Error::ParseError);
    let m = to_io_error(Error::MissingConfigValue("a.b".to_string()));
    assert_eq!(m.kind, IoErrorKind::Other);
    assert_eq!(m.source, Error::MissingConfigValue("a.b".to_string()));
    let text = to_io_error("plain");
    assert_eq!(text.source, "plain");
}

fn session(d: &Mapping, template: &[u8], chunk: usize, room: usize) -> Result<Vec<u8>, Error> {
    let p = EscapePattern::default();
    let mut reader = TemplatingReader::new(d, &p, b'%');
    let mut out = Vec::new();
    let mut buf = vec![0u8; chunk.max(room)];
    for piece in template.chunks(chunk) {
        buf[..piece.len()].copy_from_slice(piece);
        let n = reader.read(&mut buf[..room.max(piece.len())], piece.len())?;
        out.extend_from_slice(&buf[..n]);
    }
    reader.finish();
    while reader.pending() > 0 {
        let n = reader.read(&mut buf[..room], 0)?;
        out.extend_from_slice(&buf[..n]);
    }
    Ok(out)
}

#[test]
fn pending_counts_what_waits_to_be_handed_out() {
    let d = sample();
    let p = EscapePattern::default();
    let mut reader = TemplatingReader::new(&d, &p, b'%');
    assert_eq!(reader.pending(), 0);
    assert_eq!(reader.process(b"ab{{name}}{"), Ok(()));
    assert_eq!(reader.pending(), 5);
    assert_eq!(reader.drain(2), b"ab".to_vec());
    assert_eq!(reader.pending(), 3);
    reader.finish();
    assert_eq!(reader.pending(), 4);
    assert_eq!(reader.drain(10), b"bob{".to_vec());
    assert_eq!(reader.pending(), 0);
}

#[test]
fn reads_hand_out_the_whole_render_whatever_the_chunks_and_the_room() {
    let d = sample();
    let template: &[u8] = b"a{b{{name}}c{{%d}}e{{#IF flag\n[{{name}}]\n}}f{";
    let expected = b"a{bbobc{{d}}e[bob]f{".to_vec();
    for chunk in 1..=template.len() {
        for room in 1..=8 {
            assert_eq!(session(&d, template, chunk, room), Ok(expected.clone()));
        }
    }
}

#[test]
fn reads_hand_out_a_template_without_delimiters_as_it_is() {
    let d = sample();
    let template: &[u8] = b"plain { text } with %, }} and a lone {";
    for chunk in 1..=template.len() {
        for room in 1..=5 {
            assert_eq!(session(&d, template, chunk, room), Ok(template.to_vec()));
            assert_eq!(session(&Mapping::new(), template, chunk, room), Ok(template.to_vec()));
        }
    }
}

#[test]
fn reads_of_a_second_pass_change_nothing() {
    let d = sample();
    let first = session(&d, b"Hi {{name}}, {x} {{%", 3, 2).unwrap();
    assert_eq!(first, b"Hi bob, {x} {{".to_vec());
    let clean = session(&d, b"Hi {{name}}, {x}", 3, 2).unwrap();
    for chunk in 1..=clean.len() {
        assert_eq!(session(&d, &clean, chunk, 4), Ok(clean.clone()));
    }
}

#[test]
fn reads_fail_as_the_whole_render_fails() {
    let d = sample();
    for chunk in 1..=12 {
        for room in 1..=4 {
            assert_eq!(
                session(&d, b"ok {{nobody}} more", chunk, room),
                Err(Error::MissingConfigValue("nobody".to_string()))
            );
        }
    }
}
