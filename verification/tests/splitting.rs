use strsplit::{until_char, Delimiter, StrSplit};

#[test]
fn until_char_works() {
    let haystack = "abcde";
    assert_eq!(until_char(haystack, 'c'), "ab");
}

#[test]
fn it_works() {
    let haystack = "a b c d e";
    let letters = StrSplit::new(haystack, " ");

    let letters: Vec<_> = letters.collect();
    assert_eq!(letters, vec!["a", "b", "c", "d", "e"]);
}

#[test]
fn empty() {
    let haystack = "a b c d e";
    let letters = StrSplit::new(haystack, ",");

    assert_eq!(letters.collect(), vec![haystack]);
}

#[test]
fn tail() {
    let haystack = "a b c d ";
    let letters = StrSplit::new(haystack, " ");

    assert!(letters.collect().into_iter().eq(vec!["a", "b", "c", "d", ""].into_iter()));
}

#[test]
fn char_delimiter_keeps_empty_tokens() {
    let letters = StrSplit::new("a,b,,c", ',');
    assert_eq!(letters.collect(), vec!["a", "b", "", "c"]);
}

#[test]
fn str_delimiter_of_one_char_keeps_empty_tokens() {
    let letters = StrSplit::new("a,b,,c", ",");
    assert_eq!(letters.collect(), vec!["a", "b", "", "c"]);
}

#[test]
fn next_walks_the_states() {
    let mut splitter = StrSplit::new("k=v", "=");
    assert_eq!(splitter.next(), Some("k"));
    assert_eq!(splitter.next(), Some("v"));
    assert_eq!(splitter.next(), None);
}

#[test]
fn next_after_exhaustion_stays_none() {
    let mut splitter = StrSplit::new("one", ' ');
    assert_eq!(splitter.next(), Some("one"));
    for _ in 0..5 {
        assert_eq!(splitter.next(), None);
    }
    assert!(splitter.collect().is_empty());
}

#[test]
fn empty_source_is_one_empty_token() {
    assert_eq!(StrSplit::new("", ",").collect(), vec![""]);
    assert_eq!(StrSplit::new("", ',').collect(), vec![""]);
    let mut splitter = StrSplit::new("", "ab");
    assert_eq!(splitter.next(), Some(""));
    assert_eq!(splitter.next(), None);
}

#[test]
fn empty_delimiter_never_matches() {
    assert_eq!("".find_next("abc"), None);
    assert_eq!("".find_next(""), None);
    assert_eq!(StrSplit::new("abc", "").collect(), vec!["abc"]);
    assert_eq!(StrSplit::new("", "").collect(), vec![""]);
}

#[test]
fn delimiter_longer_than_source() {
    assert_eq!("abcd".find_next("abc"), None);
    assert_eq!(StrSplit::new("abc", "abcd").collect(), vec!["abc"]);
}

#[test]
fn source_that_is_the_delimiter() {
    assert_eq!(StrSplit::new("::", "::").collect(), vec!["", ""]);
    assert_eq!(StrSplit::new(";", ';').collect(), vec!["", ""]);
}

#[test]
fn leading_and_doubled_delimiters() {
    assert_eq!(StrSplit::new(" a  b", " ").collect(), vec!["", "a", "", "b"]);
    assert_eq!(StrSplit::new("--a----b--", "--").collect(), vec!["", "a", "", "b", ""]);
}

#[test]
fn absent_delimiter_gives_the_source_once() {
    for source in ["x", "hello world", "a,b,c", "ééé"] {
        assert_eq!(StrSplit::new(source, "|").collect(), vec![source]);
        assert_eq!(StrSplit::new(source, '|').collect(), vec![source]);
        assert_eq!(StrSplit::new(source, "zz").collect(), vec![source]);
    }
}

#[test]
fn trailing_delimiter_gives_one_empty_token() {
    for body in ["", "a", "a b", "a b ", "é è"] {
        let before = StrSplit::new(body, " ").collect();
        let source = format!("{} ", body);
        let after = StrSplit::new(source.as_str(), " ").collect();
        assert_eq!(after.len(), before.len() + 1);
        assert_eq!(&after[..before.len()], &before[..]);
        assert_eq!(after[before.len()], "");
    }
}

#[test]
fn overlapping_delimiter_is_matched_from_the_left() {
    assert_eq!(StrSplit::new("aaa", "aa").collect(), vec!["", "a"]);
    assert_eq!(StrSplit::new("baa", "aa").collect(), vec!["b", ""]);
    assert_eq!(StrSplit::new("aaaa", "aa").collect(), vec!["", "", ""]);
    assert_eq!(StrSplit::new("xababay", "aba").collect(), vec!["x", "bay"]);
}

#[test]
fn joining_the_tokens_gives_the_source() {
    let cases = [
        ("a b c d e", " "),
        ("a b c d ", " "),
        ("", " "),
        ("a,b,,c", ","),
        ("aaa", "aa"),
        ("xababay", "aba"),
        ("--a----b--", "--"),
        ("no delimiter here", "|"),
        ("data", ""),
        ("naïve→café→", "→"),
    ];
    for (source, delimiter) in cases {
        let tokens = StrSplit::new(source, delimiter).collect();
        assert_eq!(tokens.join(delimiter), source);
    }
    for (source, delimiter) in [("a,b,,c", ','), ("é·è·", '·'), ("", 'x'), ("xxx", 'x')] {
        let tokens = StrSplit::new(source, delimiter).collect();
        assert_eq!(tokens.join(delimiter.to_string().as_str()), source);
    }
}

#[test]
fn there_are_at_most_one_more_tokens_than_characters() {
    for (source, delimiter) in [("", ','), (",", ','), (",,,", ','), ("a,b", ','), ("éé", 'é')] {
        let count = StrSplit::new(source, delimiter).collect().len();
        assert!(1 <= count && count <= source.chars().count() + 1);
    }
    assert_eq!(StrSplit::new(",,,", ',').collect().len(), 4);
}

#[test]
fn tokens_are_slices_of_the_source() {
    let source = String::from("ab::cd::::ef");
    let begin = source.as_ptr() as usize;
    let tokens = StrSplit::new(source.as_str(), "::").collect();
    assert_eq!(tokens, vec!["ab", "cd", "", "ef"]);
    let places: Vec<usize> = tokens.iter().map(|t| t.as_ptr() as usize - begin).collect();
    assert_eq!(places, vec![0, 4, 8, 10]);
}

#[test]
fn find_next_of_a_str_gives_byte_offsets() {
    assert_eq!(" ".find_next("a b c"), Some((1, 2)));
    assert_eq!("cd".find_next("abcde"), Some((2, 4)));
    assert_eq!("ab".find_next("abab"), Some((0, 2)));
    assert_eq!("de".find_next("abcde"), Some((3, 5)));
    assert_eq!("x".find_next("abcde"), None);
    assert_eq!("x".find_next(""), None);
    assert_eq!("é".find_next("aébé"), Some((1, 3)));
    assert_eq!("b".find_next("éébé"), Some((4, 5)));
    assert_eq!("→b".find_next("a→a→b"), Some((5, 9)));
}

#[test]
fn find_next_of_a_char_gives_byte_offsets() {
    assert_eq!('c'.find_next("abcde"), Some((2, 3)));
    assert_eq!('a'.find_next("abcde"), Some((0, 1)));
    assert_eq!('e'.find_next("abcde"), Some((4, 5)));
    assert_eq!('z'.find_next("abcde"), None);
    assert_eq!('z'.find_next(""), None);
    assert_eq!('\u{7f}'.find_next("a\u{7f}"), Some((1, 2)));
    assert_eq!('é'.find_next("aébé"), Some((1, 3)));
    assert_eq!('\u{80}'.find_next("x\u{80}"), Some((1, 3)));
    assert_eq!('\u{7ff}'.find_next("x\u{7ff}"), Some((1, 3)));
    assert_eq!('\u{800}'.find_next("x\u{800}"), Some((1, 4)));
    assert_eq!('→'.find_next("é→b"), Some((2, 5)));
    assert_eq!('\u{ffff}'.find_next("é\u{ffff}"), Some((2, 5)));
    assert_eq!('\u{10000}'.find_next("é\u{10000}"), Some((2, 6)));
    assert_eq!('😀'.find_next("a→😀b😀"), Some((4, 8)));
    assert_eq!('\u{10ffff}'.find_next("\u{10ffff}"), Some((0, 4)));
    assert_eq!('b'.find_next("é😀b"), Some((6, 7)));
}

#[test]
fn find_next_agrees_with_std() {
    let texts = ["", "a", "abc", "aébé", "→→a→", "😀x😀", "a b c d ", "ééé", "\u{800}\u{7ff}"];
    let chars = ['a', 'b', 'é', '→', '😀', ' ', '\u{7ff}', '\u{800}', 'z'];
    for text in texts {
        for c in chars {
            let expected = text.find(c).map(|at| (at, at + c.len_utf8()));
            assert_eq!(c.find_next(text), expected);
        }
        for pat in texts {
            let expected = if pat.is_empty() {
                None
            } else {
                text.find(pat).map(|at| (at, at + pat.len()))
            };
            assert_eq!(pat.find_next(text), expected);
        }
    }
}

#[test]
fn text_that_is_not_ascii() {
    assert_eq!(StrSplit::new("naïve→café→", "→").collect(), vec!["naïve", "café", ""]);
    assert_eq!(StrSplit::new("naïve→café→", '→').collect(), vec!["naïve", "café", ""]);
    assert_eq!(StrSplit::new("😀é😀è😀", 'é').collect(), vec!["😀", "😀è😀"]);
    assert_eq!(StrSplit::new("日本語、テキスト", "、").collect(), vec!["日本語", "テキスト"]);
}

#[test]
fn until_char_at_the_edges() {
    assert_eq!(until_char("abcde", 'a'), "");
    assert_eq!(until_char("abcde", 'e'), "abcd");
    assert_eq!(until_char("abcde", 'z'), "abcde");
    assert_eq!(until_char("", 'z'), "");
    assert_eq!(until_char("abcabc", 'c'), "ab");
    assert_eq!(until_char("héllo wörld", 'ö'), "héllo w");
}

#[test]
fn splitter_can_be_printed() {
    let splitter = StrSplit::new("a b", " ");
    let text = format!("{:?}", splitter);
    assert!(text.contains("StrSplit"));
}
