use lsap::text::{field_range, find, parse_number, split_lines, subvec, trim_range};

fn chars(text: &str) -> Vec<char> {
    text.chars().collect()
}

fn text(chars: &[char]) -> String {
    chars.iter().collect()
}

struct Lcg(u64);

impl Lcg {
    fn below(&mut self, n: usize) -> usize {
        self.0 = self.0.wrapping_mul(6364136223846793005).wrapping_add(1442695040888963407);
        ((self.0 >> 33) as usize) % n
    }

    fn text(&mut self, alphabet: &[char], longest: usize) -> String {
        let n = self.below(longest + 1);
        (0..n).map(|_| alphabet[self.below(alphabet.len())]).collect()
    }
}

#[test]
fn find_gives_the_first_place() {
    let s = chars("a#b#c");
    assert_eq!(find(&s, 0, 5, '#'), 1);
    assert_eq!(find(&s, 2, 5, '#'), 3);
    assert_eq!(find(&s, 4, 5, '#'), 5);
    assert_eq!(find(&s, 0, 1, '#'), 1);
    assert_eq!(find(&s, 3, 3, '#'), 3);
}

#[test]
fn subvec_copies_a_range() {
    let s = chars("字根abc");
    assert_eq!(subvec(&s, 1, 4), chars("根ab"));
    assert_eq!(subvec(&s, 2, 2), chars(""));
}

#[test]
fn lines_are_those_of_the_standard_library() {
    for sample in ["", "\n", "a", "a\n", "a\nb", "a\r\nb\r\n", "a\rb\n", "a\r", "\r\n\r\n", "a\n\nb", "\r", "a\r\r\n"] {
        let got: Vec<String> = split_lines(&chars(sample)).iter().map(|l| text(l)).collect();
        let expected: Vec<String> = sample.lines().map(|l| l.to_string()).collect();
        assert_eq!(got, expected, "{sample:?}");
    }
    let mut rng = Lcg(7);
    for _ in 0..3000 {
        let sample = rng.text(&['a', '\n', '\r', ' ', '字'], 12);
        let got: Vec<String> = split_lines(&chars(&sample)).iter().map(|l| text(l)).collect();
        let expected: Vec<String> = sample.lines().map(|l| l.to_string()).collect();
        assert_eq!(got, expected, "{sample:?}");
    }
}

#[test]
fn trimming_is_that_of_the_standard_library() {
    let mut rng = Lcg(8);
    for _ in 0..3000 {
        let sample = rng.text(&['a', ' ', '\t', '\n', '\r', '\x0C', '\x0B', '\u{a0}', '字'], 10);
        let s = chars(&sample);
        let (a, b) = trim_range(&s, 0, s.len());
        assert_eq!(text(&s[a..b]), sample.trim_ascii(), "{sample:?}");
    }
    let s = chars("  ab  ");
    assert_eq!(trim_range(&s, 0, 6), (2, 4));
    assert_eq!(trim_range(&s, 3, 6), (3, 4));
    assert_eq!(trim_range(&s, 4, 6), (6, 6));
}

#[test]
fn fields_are_those_of_the_standard_library() {
    let mut rng = Lcg(9);
    for _ in 0..3000 {
        let sample = rng.text(&['a', 'b', ',', '\t'], 10);
        let s = chars(&sample);
        for n in 0..6 {
            let got = field_range(&s, 0, s.len(), ',', n).map(|(a, b)| text(&s[a..b]));
            let expected = sample.split(',').nth(n).map(|f| f.to_string());
            assert_eq!(got, expected, "{sample:?} {n}");
        }
    }
    let s = chars("x,y,,z");
    assert_eq!(field_range(&s, 0, 6, ',', 0), Some((0, 1)));
    assert_eq!(field_range(&s, 0, 6, ',', 2), Some((4, 4)));
    assert_eq!(field_range(&s, 0, 6, ',', 3), Some((5, 6)));
    assert_eq!(field_range(&s, 0, 6, ',', 4), None);
    assert_eq!(field_range(&s, 2, 3, ',', 0), Some((2, 3)));
}

#[test]
fn numbers_are_those_of_the_standard_library() {
    for sample in [
        "", "+", "-", "0", "+0", "-0", "007", "42", "+42", "++42", "4 2", " 42", "42 ", "4a", "٤٢",
        "18446744073709551615", "18446744073709551616", "+18446744073709551615",
        "99999999999999999999999", "000000000000000000000000001", "1844674407370955161x",
    ] {
        let s = chars(sample);
        assert_eq!(parse_number(&s, 0, s.len()), sample.parse::<u64>().ok(), "{sample:?}");
    }
    let mut rng = Lcg(10);
    for _ in 0..3000 {
        let sample = rng.text(&['0', '1', '9', '+', '-', 'a'], 22);
        let s = chars(&sample);
        assert_eq!(parse_number(&s, 0, s.len()), sample.parse::<u64>().ok(), "{sample:?}");
    }
    let s = chars("a=15;");
    assert_eq!(parse_number(&s, 2, 4), Some(15));
}
