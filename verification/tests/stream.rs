use pegy::stream::{stands_at, ChunkBuffer, StreamSource};
use pegy::util::{Repeat, ALPHABETIC, NO_SEPARATOR};
use pegy::{Parse, Source};

#[test]
fn bytes_stand_where_they_are() {
    assert!(stands_at(b"hello", 1, b"ell"));
    assert!(stands_at(b"hello", 5, b""));
    assert!(stands_at(b"", 0, b""));
    assert!(!stands_at(b"hello", 1, b"elx"));
    assert!(!stands_at(b"hello", 3, b"lol"));
    assert!(!stands_at(b"hello", 6, b""));
}

#[test]
fn a_stream_reads_what_has_arrived() {
    let mut src = StreamSource::new();
    assert_eq!(src.buffered(), 0);
    assert!(src.peek().is_none());
    assert!(src.is_starved());
    src.feed("hé".as_bytes());
    src.rewind(0);
    assert!(!src.is_starved());
    assert!(src.match_char('h'));
    assert_eq!(src.peek().map(|c| (c.ch, c.length)), Some(('é', 2)));
    assert!(src.match_char('é'));
    assert_eq!(src.current_position(), 3);
    assert!(!src.is_starved());
    assert!(!src.match_char('x'));
    assert!(src.is_starved());
}

#[test]
fn half_a_character_starves_until_the_rest_arrives() {
    let bytes = "€".as_bytes();
    let mut src = StreamSource::new();
    src.feed(&bytes[..2]);
    assert!(src.peek().is_none());
    assert!(src.is_starved());
    src.feed(&bytes[2..]);
    src.rewind(0);
    assert_eq!(src.peek().map(|c| (c.ch, c.length)), Some(('€', 3)));
    assert!(!src.is_starved());
}

#[test]
fn at_the_end_of_a_complete_input_nothing_starves() {
    let mut src = StreamSource::new();
    src.feed(b"ab");
    src.close();
    assert!(src.is_complete());
    assert!(src.match_str("ab"));
    assert!(src.peek().is_none());
    assert!(!src.match_str("c"));
    assert!(!src.is_starved());
}

#[test]
fn match_str_starves_on_a_short_buffer() {
    let mut src = StreamSource::new();
    src.feed(b"nu");
    assert!(!src.match_str("null"));
    assert!(src.is_starved());
    assert_eq!(src.current_position(), 0);
    src.feed(b"ll");
    src.rewind(0);
    assert!(src.match_str("null"));
    assert_eq!(src.current_position(), 4);
}

#[test]
fn a_parse_is_done_again_when_it_was_starved() {
    type Word = Repeat<ALPHABETIC, 1, { usize::MAX }, NO_SEPARATOR>;
    let pieces: [&[u8]; 3] = [b"ab", b"cd", b"e f"];
    let mut src = StreamSource::new();
    let mut next = 0;
    let word = loop {
        src.rewind(0);
        let r = Word::parse(&mut src);
        if !src.wants_more() {
            break r;
        }
        if next < pieces.len() {
            src.accept(pieces[next]);
            next += 1;
        } else {
            src.accept(b"");
        }
    };
    assert_eq!(word, Ok(vec!['a', 'b', 'c', 'd', 'e']));
    assert_eq!(src.current_position(), 5);
    assert_eq!(next, 3);
}

#[test]
fn chunks_are_handed_on_in_pieces() {
    let mut buffer = ChunkBuffer::new();
    assert!(buffer.is_empty());
    assert_eq!(buffer.take(b"hello world", 4), b"hell".to_vec());
    assert!(!buffer.is_empty());
    assert_eq!(buffer.drain(4), b"o wo".to_vec());
    assert_eq!(buffer.drain(100), b"rld".to_vec());
    assert!(buffer.is_empty());
    assert_eq!(buffer.drain(4), Vec::<u8>::new());
    assert_eq!(buffer.take(b"abc", 3), b"abc".to_vec());
    assert!(buffer.is_empty());
    assert_eq!(buffer.take(b"abc", 0), Vec::<u8>::new());
    assert_eq!(buffer.take(b"de", 1), b"d".to_vec());
    assert_eq!(buffer.drain(10), b"abce".to_vec());
    assert_eq!(buffer.take(b"", 5), Vec::<u8>::new());
}

#[test]
fn a_read_of_no_bytes_ends_the_input() {
    let mut src = StreamSource::new();
    assert!(!src.wants_more());
    assert_eq!(src.peek().map(|c| c.ch), None);
    assert!(src.wants_more());
    src.accept(b"x");
    assert!(!src.is_complete());
    assert_eq!(src.buffered(), 1);
    src.accept(b"");
    assert!(src.is_complete());
    assert!(!src.wants_more());
    assert_eq!(src.buffered(), 1);
}
