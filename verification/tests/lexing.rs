use arg_locator::lex::{classify, Token};
use arg_locator::raw::{masked, offsets_fit, read_token, read_tokens, LengthMode};
use arg_locator::text::{char_width, tail_byte_len};

fn long(name: &str, value: Option<&str>) -> Token {
    Token::Long { name: name.to_string(), value: value.map(|v| v.to_string()) }
}

fn short(cluster: &str) -> Token {
    Token::Short { cluster: cluster.chars().collect() }
}

#[test]
fn long_tokens_split_at_the_first_equals() {
    assert_eq!(classify("--name"), long("name", None));
    assert_eq!(classify("--name=value"), long("name", Some("value")));
    assert_eq!(classify("--name=a=b"), long("name", Some("a=b")));
    assert_eq!(classify("--name="), long("name", Some("")));
    assert_eq!(classify("--=value"), long("", Some("value")));
    assert_eq!(classify("---"), long("-", None));
    assert_eq!(classify("--n\u{e9}=\u{20ac}"), long("n\u{e9}", Some("\u{20ac}")));
}

#[test]
fn short_tokens_hold_their_cluster() {
    assert_eq!(classify("-a"), short("a"));
    assert_eq!(classify("-abc"), short("abc"));
    assert_eq!(classify("-s=Value"), short("s=Value"));
    assert_eq!(classify("-s-2."), short("s-2."));
    assert_eq!(classify("-\u{e9}x"), short("\u{e9}x"));
}

#[test]
fn other_tokens_are_plain() {
    assert_eq!(classify(""), Token::Plain);
    assert_eq!(classify("-"), Token::Plain);
    assert_eq!(classify("--"), Token::Plain);
    assert_eq!(classify("value"), Token::Plain);
    assert_eq!(classify("a-b"), Token::Plain);
    assert_eq!(classify("=x"), Token::Plain);
}

#[test]
fn characters_take_one_to_four_bytes() {
    assert_eq!(char_width('a'), 1);
    assert_eq!(char_width('\u{7f}'), 1);
    assert_eq!(char_width('\u{80}'), 2);
    assert_eq!(char_width('\u{e9}'), 2);
    assert_eq!(char_width('\u{7ff}'), 2);
    assert_eq!(char_width('\u{800}'), 3);
    assert_eq!(char_width('\u{20ac}'), 3);
    assert_eq!(char_width('\u{ffff}'), 3);
    assert_eq!(char_width('\u{10000}'), 4);
    assert_eq!(char_width('\u{1f600}'), 4);
}

#[test]
fn tail_of_a_cluster_is_counted_in_bytes() {
    let cluster: Vec<char> = "s\u{e9}\u{20ac}x".chars().collect();
    assert_eq!(tail_byte_len(&cluster, 0), 7);
    assert_eq!(tail_byte_len(&cluster, 1), 6);
    assert_eq!(tail_byte_len(&cluster, 2), 4);
    assert_eq!(tail_byte_len(&cluster, 4), 0);
}

fn read(bytes: &[u8], mode: LengthMode) -> (String, usize) {
    read_token(bytes, mode)
}

fn as_read(text: &str, masked: usize) -> (String, usize) {
    (text.to_string(), masked)
}

#[test]
fn arguments_are_read_under_a_mode() {
    assert_eq!(read(b"plain", LengthMode::Raw), as_read("plain", 0));
    assert_eq!(read(b"plain", LengthMode::Lossy), as_read("plain", 0));
    assert_eq!(read("\u{e9}".as_bytes(), LengthMode::Raw), as_read("\u{e9}", 0));
    assert_eq!(read("\u{e9}".as_bytes(), LengthMode::Lossy), as_read("\u{e9}", 0));
    assert_eq!(read(b"a\x1ab", LengthMode::Raw), as_read("a\u{1a}b", 0));
    assert_eq!(read(b"a\xffb", LengthMode::Raw), as_read("a\u{1a}\u{1a}", 2));
    assert_eq!(read(b"a\xffb", LengthMode::Lossy), as_read("a\u{1a}\u{1a}\u{1a}\u{1a}", 4));
    assert_eq!(read(b"--a=\xff", LengthMode::Raw), as_read("--a=\u{1a}", 1));
    assert_eq!(read(b"--a=\xff", LengthMode::Lossy), as_read("--a=\u{1a}\u{1a}\u{1a}", 3));
    assert_eq!(read(b"\xed\xa0\x80", LengthMode::Raw), as_read("\u{1a}\u{1a}\u{1a}", 3));
    assert_eq!(read(b"\xc0\x80", LengthMode::Raw), as_read("\u{1a}\u{1a}", 2));
    assert_eq!(read("\u{20ac}\u{e9}".as_bytes(), LengthMode::Lossy), as_read("\u{20ac}\u{e9}", 0));
    assert_eq!(read(b"\xe2\x82", LengthMode::Raw), as_read("\u{1a}\u{1a}", 2));
    assert_eq!(read(b"\xe2\x82", LengthMode::Lossy), as_read("\u{1a}\u{1a}\u{1a}", 3));
    assert_eq!(read(b"\xf4\x8f\xbf\xbf", LengthMode::Raw), as_read("\u{10ffff}", 0));
    assert_eq!(
        read(b"\xf4\x90\x80\x80", LengthMode::Raw),
        as_read("\u{1a}\u{1a}\u{1a}\u{1a}", 4)
    );
    assert_eq!(read(b"", LengthMode::Raw), as_read("", 0));
}

#[test]
fn every_argument_is_read() {
    let args = vec![b"a".to_vec(), b"\xc3".to_vec(), b"-\xffx".to_vec()];
    assert_eq!(
        read_tokens(&args, LengthMode::Raw),
        (
            vec!["a".to_string(), "\u{1a}".to_string(), "-\u{1a}\u{1a}".to_string()],
            vec![0, 1, 2]
        )
    );
    assert_eq!(
        read_tokens(&args, LengthMode::Lossy),
        (
            vec![
                "a".to_string(),
                "\u{1a}\u{1a}\u{1a}".to_string(),
                "-\u{1a}\u{1a}\u{1a}\u{1a}".to_string()
            ],
            vec![0, 3, 4]
        )
    );
    assert_eq!(read_tokens(&Vec::new(), LengthMode::Raw), (Vec::<String>::new(), Vec::<usize>::new()));
}

#[test]
fn mask_is_as_long_as_asked() {
    assert_eq!(masked(0), "");
    assert_eq!(masked(3), "\u{1a}\u{1a}\u{1a}");
}

#[test]
fn argv_strings_of_this_world_fit() {
    assert!(offsets_fit(&["bin".to_string(), "--name=value".to_string()]));
    assert!(offsets_fit(&[]));
}
