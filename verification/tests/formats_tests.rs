use compact_str::CompactString;
use lsap::formats::{
    content_range, parse_allowed, parse_count_line, parse_counts, parse_mabiao, parse_mabiao_line,
    parse_predefined,
};

fn chars(text: &str) -> Vec<char> {
    text.chars().collect()
}

fn text(chars: &[char]) -> String {
    chars.iter().collect()
}

struct Lcg(u64);

impl Lcg {
    fn below(&mut self, n: usize) -> usize {
        self.0 = self.0.wrapping_mul(6364136223846793005).wrapping_add(1442695040888963407);
        ((self.0 >> 33) as usize) % n
    }

    fn text(&mut self, alphabet: &[&str], longest: usize) -> String {
        let n = self.below(longest + 1);
        (0..n).map(|_| alphabet[self.below(alphabet.len())]).collect()
    }
}

fn said(line: &str) -> &str {
    line.split_once('#').map(|(before, _)| before).unwrap_or(line).trim_ascii()
}

/// The dictionary read with the standard library, `None` where a line lacks a part.
fn mabiao_by_hand(content: &str) -> Option<Vec<(char, String)>> {
    let mut found = Vec::new();
    for line in content.lines() {
        if line.is_empty() {
            continue;
        }
        let mut fields = line.split('\t');
        let zi = fields.next()?;
        let info = fields.next()?.strip_prefix('[')?.strip_suffix(']')?;
        let bianma = info.split(',').nth(1)?;
        let kind = info.split(',').nth(4)?;
        if kind == "CJK" {
            found.push((zi.chars().next()?, CompactString::from_str_to_lowercase(bianma).to_string()));
        }
    }
    Some(found)
}

fn counts_by_hand(content: &str) -> Option<Vec<(char, u64)>> {
    let mut found = Vec::new();
    for line in content.lines() {
        let line = said(line);
        if line.is_empty() {
            continue;
        }
        let mut fields = line.split('\t');
        let zi = fields.next()?.chars().next()?;
        let count = fields.next()?.parse::<u64>().ok()?;
        found.push((zi, count));
    }
    Some(found)
}

fn allowed_by_hand(content: &str) -> Vec<String> {
    let mut found = Vec::new();
    for line in content.lines() {
        let line = said(line);
        if line.is_empty() {
            continue;
        }
        found.push(CompactString::from_str_to_lowercase(line).to_string());
    }
    found
}

fn predefined_by_hand(content: &str) -> Result<Vec<(String, String)>, usize> {
    let mut found = Vec::new();
    for (i, line) in content.lines().enumerate() {
        let line = said(line);
        if line.is_empty() {
            continue;
        }
        match line.split_once('\t') {
            Some((zi, bianma)) => {
                found.push((zi.to_string(), CompactString::from_str_to_lowercase(bianma).to_string()))
            }
            None => return Err(i + 1),
        }
    }
    Ok(found)
}

#[test]
fn content_is_what_stands_before_the_comment() {
    for sample in ["", "abc", "  abc  ", "abc # note", "# note", "a#b#c", " \t a b \t# c", "#", " # "] {
        let line = chars(sample);
        let (a, b) = content_range(&line);
        assert_eq!(text(&line[a..b]), said(sample), "{sample:?}");
    }
}

#[test]
fn dictionary_line_gives_character_and_code() {
    let line = chars("字\t[zi,ABcd,x,y,CJK,z]");
    assert_eq!(parse_mabiao_line(&line), Some(Some(('字', chars("ABcd")))));
    let line = chars("字\t[zi,ABcd,x,y,CJK]\tmore");
    assert_eq!(parse_mabiao_line(&line), Some(Some(('字', chars("ABcd")))));
}

#[test]
fn dictionary_line_of_another_kind_is_passed_over() {
    assert_eq!(parse_mabiao_line(&chars("a\t[zi,ab,x,y,Latin]")), Some(None));
    assert_eq!(parse_mabiao_line(&chars("a\t[zi,ab,x,y,CJKx]")), Some(None));
    assert_eq!(parse_mabiao_line(&chars("a\t[zi,ab,x,y,cjk]")), Some(None));
    assert_eq!(parse_mabiao_line(&chars("\t[zi,ab,x,y,Latin]")), Some(None));
    assert_eq!(parse_mabiao_line(&chars("")), Some(None));
}

#[test]
fn dictionary_line_without_its_parts_is_refused() {
    for sample in [
        "字", "字\t", "字\tzi,ab,x,y,CJK]", "字\t[zi,ab,x,y,CJK", "字\t[", "字\t]", "字\t[]",
        "字\t[zi]", "字\t[zi,ab,x,y]", "\t[zi,ab,x,y,CJK]", " ", "字 [zi,ab,x,y,CJK]",
    ] {
        assert_eq!(parse_mabiao_line(&chars(sample)), None, "{sample:?}");
    }
}

#[test]
fn dictionary_codes_come_out_in_lowercase() {
    let content = "字\t[zi,ABcd,x,y,CJK]\n\nA\t[a,QQ,x,y,Latin]\r\n根\t[gen,ΣΑΣ,x,y,CJK]\n";
    assert_eq!(
        parse_mabiao(&chars(content)),
        Some(vec![('字', chars("abcd")), ('根', chars("σας"))])
    );
    assert_eq!(parse_mabiao(&chars("")), Some(vec![]));
    assert_eq!(parse_mabiao(&chars("字\t[zi,AB,x,y,CJK]\nbad\n")), None);
}

#[test]
fn dictionary_is_read_as_with_the_standard_library() {
    let alphabet = ["字", "根", "\t", "[", "]", ",", "CJK", "Ab", "x", "\n", "\r\n", " ", "[a,B,c,d,CJK]", "\t[a,Bc,c,d,"];
    let mut rng = Lcg(17);
    for _ in 0..5000 {
        let sample = rng.text(&alphabet, 9);
        let got = parse_mabiao(&chars(&sample))
            .map(|v| v.iter().map(|(zi, b)| (*zi, text(b))).collect::<Vec<_>>());
        assert_eq!(got, mabiao_by_hand(&sample), "{sample:?}");
    }
}

#[test]
fn count_line_gives_character_and_count() {
    assert_eq!(parse_count_line(&chars("字\t3")), Some(Some(('字', 3))));
    assert_eq!(parse_count_line(&chars("  字根\t+12\tmore # note")), Some(Some(('字', 12))));
    assert_eq!(parse_count_line(&chars("   # only a note")), Some(None));
    assert_eq!(parse_count_line(&chars("")), Some(None));
    assert_eq!(parse_count_line(&chars("字")), None);
    assert_eq!(parse_count_line(&chars("字\t")), None);
    assert_eq!(parse_count_line(&chars("字\tthree")), None);
    assert_eq!(parse_count_line(&chars("字\t-3")), None);
    assert_eq!(parse_count_line(&chars("字\t3 4")), None);
    assert_eq!(parse_count_line(&chars("字\t99999999999999999999")), None);
}

#[test]
fn counts_are_read_as_with_the_standard_library() {
    let alphabet = ["字", "根", "\t", "1", "23", "+", "#", " ", "\n", "\r\n", "x"];
    let mut rng = Lcg(18);
    for _ in 0..5000 {
        let sample = rng.text(&alphabet, 9);
        assert_eq!(parse_counts(&chars(&sample)), counts_by_hand(&sample), "{sample:?}");
    }
    assert_eq!(
        parse_counts(&chars("# counts\n字\t2\n\n根\t10 # ten\n")),
        Some(vec![('字', 2), ('根', 10)])
    );
}

#[test]
fn allowed_codes_are_read_as_with_the_standard_library() {
    let alphabet = ["Ab", "c", "Σ", "#", " ", "\t", "\n", "\r\n"];
    let mut rng = Lcg(19);
    for _ in 0..5000 {
        let sample = rng.text(&alphabet, 9);
        let got: Vec<String> = parse_allowed(&chars(&sample)).iter().map(|c| text(c)).collect();
        assert_eq!(got, allowed_by_hand(&sample), "{sample:?}");
    }
    let got: Vec<String> =
        parse_allowed(&chars("# allowed\nABC\n  Def  # too\n\n")).iter().map(|c| text(c)).collect();
    assert_eq!(got, vec!["abc", "def"]);
}

#[test]
fn predefined_codes_are_read_as_with_the_standard_library() {
    let alphabet = ["字", "词语", "\t", "Ab", "c", "#", " ", "\n", "\r\n"];
    let mut rng = Lcg(20);
    for _ in 0..5000 {
        let sample = rng.text(&alphabet, 9);
        let got = parse_predefined(&chars(&sample)).map(|v| {
            v.iter().map(|p| (text(&p.zi), text(&p.bianma))).collect::<Vec<_>>()
        });
        assert_eq!(got, predefined_by_hand(&sample), "{sample:?}");
    }
}

#[test]
fn predefined_line_without_a_tab_is_named_by_its_number() {
    let content = "# laid down\n词语\tCY\n\nbroken line\n字\tz\nanother\n";
    assert_eq!(parse_predefined(&chars(content)).err(), Some(4));
    let content = "词语\tCY # two characters\n字\tZ\tz\n";
    let got = parse_predefined(&chars(content)).unwrap();
    assert_eq!(got.len(), 2);
    assert_eq!((text(&got[0].zi), text(&got[0].bianma)), ("词语".to_string(), "cy".to_string()));
    assert_eq!((text(&got[1].zi), text(&got[1].bianma)), ("字".to_string(), "z\tz".to_string()));
}
