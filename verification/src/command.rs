//! The command language of the interactive movement prompt.
//!
//! A line is trimmed of whitespace; `quit` or `exit`, in any ASCII letter
//! case, ends the session; otherwise the line must hold exactly two
//! whitespace-separated words, each a decimal `i32` (an optional `+` or `-`
//! sign, then ASCII digits): the target coordinates of a movement.
use vstd::prelude::*;

verus! {

/// What a line typed at the prompt asks for.
#[derive(Debug, PartialEq, Eq)]
pub enum Command {
    /// End the session.
    Quit,
    /// The line does not hold exactly two words.
    WrongArity,
    /// The first word (given) is not an `i32`.
    BadX(Vec<char>),
    /// The second word (given) is not an `i32`.
    BadY(Vec<char>),
    /// Move the pointer to (`x`, `y`).
    Move { x: i32, y: i32 },
}

/// A command as a mathematical value.
pub ghost enum CommandSpec {
    Quit,
    WrongArity,
    BadX(Seq<char>),
    BadY(Seq<char>),
    Move { x: i32, y: i32 },
}

/// The mathematical value of a command.
pub open spec fn command_view(c: Command) -> CommandSpec {
    match c {
        Command::Quit => CommandSpec::Quit,
        Command::WrongArity => CommandSpec::WrongArity,
        Command::BadX(w) => CommandSpec::BadX(w@),
        Command::BadY(w) => CommandSpec::BadY(w@),
        Command::Move { x, y } => CommandSpec::Move { x, y },
    }
}

/// The characters with the Unicode `White_Space` property.
pub open spec fn is_white(c: char) -> bool {
    let u = c as u32;
    ||| 0x09 <= u <= 0x0d
    ||| u == 0x20
    ||| u == 0x85
    ||| u == 0xa0
    ||| u == 0x1680
    ||| 0x2000 <= u <= 0x200a
    ||| u == 0x2028
    ||| u == 0x2029
    ||| u == 0x202f
    ||| u == 0x205f
    ||| u == 0x3000
}

/// `s` without its leading whitespace.
pub open spec fn trim_start(s: Seq<char>) -> Seq<char>
    decreases s.len(),
{
    if s.len() > 0 && is_white(s[0]) {
        trim_start(s.drop_first())
    } else {
        s
    }
}

/// `s` without its trailing whitespace.
pub open spec fn trim_end(s: Seq<char>) -> Seq<char>
    decreases s.len(),
{
    if s.len() > 0 && is_white(s.last()) {
        trim_end(s.drop_last())
    } else {
        s
    }
}

/// `s` without leading and trailing whitespace.
pub open spec fn trim(s: Seq<char>) -> Seq<char> {
    trim_end(trim_start(s))
}

/// Reading `s` from the left: the words completed so far and the word in
/// progress. A word is a maximal run of characters that are not whitespace.
pub open spec fn scan_words(s: Seq<char>) -> (Seq<Seq<char>>, Seq<char>)
    decreases s.len(),
{
    if s.len() == 0 {
        (Seq::empty(), Seq::empty())
    } else {
        let (done, current) = scan_words(s.drop_last());
        let c = s.last();
        if is_white(c) {
            if current.len() > 0 {
                (done.push(current), Seq::empty())
            } else {
                (done, current)
            }
        } else {
            (done, current.push(c))
        }
    }
}

/// The words of `s`, in order.
pub open spec fn words(s: Seq<char>) -> Seq<Seq<char>> {
    let (done, current) = scan_words(s);
    if current.len() > 0 {
        done.push(current)
    } else {
        done
    }
}

/// The code of `c` with ASCII upper-case letters mapped to lower case.
pub open spec fn ascii_lower(c: char) -> u32 {
    let u = c as u32;
    if 0x41 <= u <= 0x5a {
        (u + 0x20) as u32
    } else {
        u
    }
}

/// `a` and `b` are equal up to ASCII letter case.
pub open spec fn eq_ignore_ascii_case(a: Seq<char>, b: Seq<char>) -> bool {
    &&& a.len() == b.len()
    &&& forall|i: int| 0 <= i < a.len() ==> #[trigger] ascii_lower(a[i]) == ascii_lower(b[i])
}

/// `c` is an ASCII decimal digit.
pub open spec fn is_digit(c: char) -> bool {
    0x30 <= c as u32 <= 0x39
}

/// Every character of `s` is an ASCII decimal digit.
pub open spec fn all_digits(s: Seq<char>) -> bool {
    forall|i: int| 0 <= i < s.len() ==> #[trigger] is_digit(s[i])
}

/// The number that the ASCII digits `s` write in decimal.
pub open spec fn decimal_value(s: Seq<char>) -> int
    decreases s.len(),
{
    if s.len() == 0 {
        0
    } else {
        decimal_value(s.drop_last()) * 10 + (s.last() as u32 - 0x30)
    }
}

/// The `i32` that `w` writes: an optional `+` or `-`, then one or more ASCII
/// digits, of a value within the range of `i32`.
pub open spec fn parse_i32(w: Seq<char>) -> Option<i32> {
    let negative = w.len() > 0 && w[0] == '-';
    let digits = if w.len() > 0 && (w[0] == '-' || w[0] == '+') {
        w.drop_first()
    } else {
        w
    };
    let v = if negative {
        -decimal_value(digits)
    } else {
        decimal_value(digits)
    };
    if digits.len() == 0 || !all_digits(digits) || v < i32::MIN || v > i32::MAX {
        None
    } else {
        Some(v as i32)
    }
}

/// What the line `line` asks for.
pub open spec fn command_of(line: Seq<char>) -> CommandSpec {
    let t = trim(line);
    let parts = words(t);
    if eq_ignore_ascii_case(t, seq!['q', 'u', 'i', 't']) || eq_ignore_ascii_case(t, seq!['e', 'x', 'i', 't']) {
        CommandSpec::Quit
    } else if parts.len() != 2 {
        CommandSpec::WrongArity
    } else if parse_i32(parts[0]) is None {
        CommandSpec::BadX(parts[0])
    } else if parse_i32(parts[1]) is None {
        CommandSpec::BadY(parts[1])
    } else {
        CommandSpec::Move { x: parse_i32(parts[0]).unwrap(), y: parse_i32(parts[1]).unwrap() }
    }
}

/// The ASCII decimal digits, in order of value.
pub open spec fn digit_chars() -> Seq<char> {
    seq!['0', '1', '2', '3', '4', '5', '6', '7', '8', '9']
}

/// The decimal digits of `n`, most significant first, without leading zeros.
pub open spec fn decimal_digits(n: nat) -> Seq<char>
    decreases n,
{
    if n < 10 {
        seq![digit_chars()[n as int]]
    } else {
        decimal_digits(n / 10).push(digit_chars()[(n % 10) as int])
    }
}

/// `x` written in decimal, with a leading `-` when it is negative.
pub open spec fn decimal_text(x: int) -> Seq<char> {
    if x < 0 {
        seq!['-'] + decimal_digits((-x) as nat)
    } else {
        decimal_digits(x as nat)
    }
}

proof fn lemma_digit_char(d: int)
    requires
        0 <= d < 10,
    ensures
        digit_chars()[d] as u32 == 0x30 + d,
        is_digit(digit_chars()[d]),
        !is_white(digit_chars()[d]),
{
    assert(digit_chars()[0] == '0');
    assert(digit_chars()[1] == '1');
    assert(digit_chars()[2] == '2');
    assert(digit_chars()[3] == '3');
    assert(digit_chars()[4] == '4');
    assert(digit_chars()[5] == '5');
    assert(digit_chars()[6] == '6');
    assert(digit_chars()[7] == '7');
    assert(digit_chars()[8] == '8');
    assert(digit_chars()[9] == '9');
}

proof fn lemma_decimal_digits(n: nat)
    ensures
        decimal_digits(n).len() > 0,
        all_digits(decimal_digits(n)),
        decimal_value(decimal_digits(n)) == n,
        forall|i: int| 0 <= i < decimal_digits(n).len() ==> !is_white(#[trigger] decimal_digits(n)[i]),
    decreases n,
{
    let s = decimal_digits(n);
    if n < 10 {
        lemma_digit_char(n as int);
        assert(s.drop_last() == Seq::<char>::empty());
        assert(decimal_value(Seq::<char>::empty()) == 0);
        assert(s.last() == digit_chars()[n as int]);
        assert(decimal_value(s) == decimal_value(s.drop_last()) * 10 + (s.last() as u32 - 0x30));
    } else {
        let t = decimal_digits(n / 10);
        lemma_decimal_digits(n / 10);
        lemma_digit_char((n % 10) as int);
        assert(s.drop_last() == t);
        assert forall|i: int| 0 <= i < s.len() implies #[trigger] is_digit(s[i]) && !is_white(s[i]) by {
            if i < t.len() {
                assert(s[i] == t[i]);
                assert(is_digit(t[i]));
            }
        }
        assert(s.last() == digit_chars()[(n % 10) as int]);
        assert(decimal_value(s) == decimal_value(t) * 10 + (s.last() as u32 - 0x30));
        assert((n / 10) * 10 + n % 10 == n);
    }
}

proof fn lemma_words_without_white(s: Seq<char>)
    requires
        forall|i: int| 0 <= i < s.len() ==> !is_white(#[trigger] s[i]),
    ensures
        scan_words(s) == (Seq::<Seq<char>>::empty(), s),
    decreases s.len(),
{
    if s.len() > 0 {
        let t = s.drop_last();
        assert forall|i: int| 0 <= i < t.len() implies !is_white(#[trigger] t[i]) by {
            assert(t[i] == s[i]);
        }
        lemma_words_without_white(t);
        assert(!is_white(s[s.len() - 1]));
        assert(t.push(s.last()) == s);
    } else {
        assert(s == Seq::<char>::empty());
    }
}

proof fn lemma_words_after(p: Seq<char>, done: Seq<Seq<char>>, t: Seq<char>)
    requires
        scan_words(p) == (done, Seq::<char>::empty()),
        forall|i: int| 0 <= i < t.len() ==> !is_white(#[trigger] t[i]),
    ensures
        scan_words(p + t) == (done, t),
    decreases t.len(),
{
    if t.len() > 0 {
        let u = t.drop_last();
        assert forall|i: int| 0 <= i < u.len() implies !is_white(#[trigger] u[i]) by {
            assert(u[i] == t[i]);
        }
        lemma_words_after(p, done, u);
        assert((p + t).drop_last() == p + u);
        assert((p + t).last() == t.last());
        assert(!is_white(t[t.len() - 1]));
        assert(u.push(t.last()) == t);
    } else {
        assert(p + t == p);
    }
}

/// What a decimal text reads as: an ASCII digit or `-` first, no
/// whitespace, and the number itself.
proof fn lemma_decimal_text(x: int)
    requires
        i32::MIN <= x <= i32::MAX,
    ensures
        decimal_text(x).len() > 0,
        forall|i: int| 0 <= i < decimal_text(x).len() ==> !is_white(#[trigger] decimal_text(x)[i]),
        decimal_text(x)[0] == '-' || is_digit(decimal_text(x)[0]),
        decimal_text(x).last() != '-' && !is_white(decimal_text(x).last()),
        parse_i32(decimal_text(x)) == Some(x as i32),
{
    let w = decimal_text(x);
    if x < 0 {
        let ds = decimal_digits((-x) as nat);
        lemma_decimal_digits((-x) as nat);
        assert(w.drop_first() == ds);
        assert forall|i: int| 0 <= i < w.len() implies !is_white(#[trigger] w[i]) by {
            if i > 0 {
                assert(w[i] == ds[i - 1]);
            }
        }
        assert(w.last() == ds.last());
        assert(is_digit(ds[ds.len() - 1]));
    } else {
        lemma_decimal_digits(x as nat);
        assert(is_digit(w[0]));
        assert(is_digit(w[w.len() - 1]));
    }
}

/// No whitespace in `s`.
pub open spec fn unbroken(s: Seq<char>) -> bool {
    forall|i: int| 0 <= i < s.len() ==> !is_white(#[trigger] s[i])
}

proof fn lemma_trim_keeps(line: Seq<char>)
    requires
        line.len() > 0,
        !is_white(line[0]),
        !is_white(line.last()),
    ensures
        trim(line) == line,
{
    assert(trim_start(line) == line);
    assert(trim_end(line) == line);
}

proof fn lemma_not_quit_with_space(line: Seq<char>, k: int)
    requires
        0 <= k < line.len(),
        line[k] == ' ',
    ensures
        !eq_ignore_ascii_case(line, seq!['q', 'u', 'i', 't']),
        !eq_ignore_ascii_case(line, seq!['e', 'x', 'i', 't']),
{
    let q = seq!['q', 'u', 'i', 't'];
    let e = seq!['e', 'x', 'i', 't'];
    if line.len() == 4 {
        assert(ascii_lower(line[k]) == 0x20);
        assert(q[0] == 'q' && q[1] == 'u' && q[2] == 'i' && q[3] == 't');
        assert(e[0] == 'e' && e[1] == 'x' && e[2] == 'i' && e[3] == 't');
        assert(ascii_lower(q[k]) != 0x20);
        assert(ascii_lower(e[k]) != 0x20);
    }
}

proof fn lemma_words_of_two(a: Seq<char>, b: Seq<char>)
    requires
        a.len() > 0,
        b.len() > 0,
        unbroken(a),
        unbroken(b),
    ensures
        trim(a + seq![' '] + b) == a + seq![' '] + b,
        words(a + seq![' '] + b) == seq![a, b],
        !eq_ignore_ascii_case(a + seq![' '] + b, seq!['q', 'u', 'i', 't']),
        !eq_ignore_ascii_case(a + seq![' '] + b, seq!['e', 'x', 'i', 't']),
{
    let line = a + seq![' '] + b;
    assert(line[0] == a[0]);
    assert(line.last() == b.last());
    assert(!is_white(b[b.len() - 1]));
    lemma_trim_keeps(line);
    assert(line[a.len() as int] == ' ');
    lemma_not_quit_with_space(line, a.len() as int);
    lemma_words_without_white(a);
    let with_space = a.push(' ');
    assert(with_space.drop_last() == a);
    assert(is_white(' '));
    assert(scan_words(with_space) == (seq![a], Seq::<char>::empty()));
    assert(a + seq![' '] == with_space);
    lemma_words_after(with_space, seq![a], b);
}

/// Every pair of `i32` coordinates written in decimal, separated by a
/// space, is read as a move to those coordinates.
pub proof fn lemma_coordinates_read_back(x: i32, y: i32)
    ensures
        command_of(decimal_text(x as int) + seq![' '] + decimal_text(y as int)) == (CommandSpec::Move { x, y }),
{
    lemma_decimal_text(x as int);
    lemma_decimal_text(y as int);
    lemma_words_of_two(decimal_text(x as int), decimal_text(y as int));
}

/// A word with a character that is neither an ASCII digit nor a leading
/// sign is not an `i32`.
pub proof fn lemma_non_digit_rejected(w: Seq<char>, i: int)
    requires
        0 <= i < w.len(),
        !digit_chars().contains(w[i]),
        !(i == 0 && (w[0] == '-' || w[0] == '+')),
    ensures
        parse_i32(w) is None,
{
    let c = w[i];
    if is_digit(c) {
        let d = c as u32 - 0x30;
        lemma_digit_char(d as int);
        vstd::utf8::char_u32_cast(c, c as u32);
        vstd::utf8::char_u32_cast(digit_chars()[d as int], digit_chars()[d as int] as u32);
        assert(digit_chars()[d as int] == c);
        assert(false);
    }
    let signed = w.len() > 0 && (w[0] == '-' || w[0] == '+');
    let digits = if signed {
        w.drop_first()
    } else {
        w
    };
    if signed {
        assert(i > 0);
        assert(digits[i - 1] == c);
    } else {
        assert(digits[i] == c);
    }
    assert(!all_digits(digits));
}

/// A first word that is not a number makes the line a bad X coordinate,
/// whatever the second number.
pub proof fn lemma_bad_first_word(word: Seq<char>, i: int, y: i32)
    requires
        unbroken(word),
        0 <= i < word.len(),
        !digit_chars().contains(word[i]),
        !(i == 0 && (word[0] == '-' || word[0] == '+')),
    ensures
        command_of(word + seq![' '] + decimal_text(y as int)) == CommandSpec::BadX(word),
{
    lemma_decimal_text(y as int);
    lemma_words_of_two(word, decimal_text(y as int));
    lemma_non_digit_rejected(word, i);
}

/// A number followed by a second word that is not a number makes the line
/// a bad Y coordinate.
pub proof fn lemma_bad_second_word(x: i32, word: Seq<char>, i: int)
    requires
        unbroken(word),
        0 <= i < word.len(),
        !digit_chars().contains(word[i]),
        !(i == 0 && (word[0] == '-' || word[0] == '+')),
    ensures
        command_of(decimal_text(x as int) + seq![' '] + word) == CommandSpec::BadY(word),
{
    lemma_decimal_text(x as int);
    lemma_words_of_two(decimal_text(x as int), word);
    lemma_non_digit_rejected(word, i);
}

/// A line of three numbers is not a move.
pub proof fn lemma_three_numbers_wrong_arity(x: i32, y: i32, z: i32)
    ensures
        command_of(decimal_text(x as int) + seq![' '] + decimal_text(y as int) + seq![' '] + decimal_text(
            z as int,
        )) == CommandSpec::WrongArity,
{
    let a = decimal_text(x as int);
    let b = decimal_text(y as int);
    let c = decimal_text(z as int);
    lemma_decimal_text(x as int);
    lemma_decimal_text(y as int);
    lemma_decimal_text(z as int);
    let ab = a + seq![' '] + b;
    let line = ab + seq![' '] + c;
    lemma_words_of_two(a, b);
    lemma_words_without_white(a);
    let with_space = a.push(' ');
    assert(with_space.drop_last() == a);
    assert(is_white(' '));
    assert(scan_words(with_space) == (seq![a], Seq::<char>::empty()));
    assert(a + seq![' '] == with_space);
    lemma_words_after(with_space, seq![a], b);
    let ab_space = ab.push(' ');
    assert(ab_space.drop_last() == ab);
    assert(scan_words(ab_space) == (seq![a, b], Seq::<char>::empty()));
    assert(ab + seq![' '] == ab_space);
    lemma_words_after(ab_space, seq![a, b], c);
    assert(line[0] == a[0]);
    assert(line.last() == c.last());
    lemma_trim_keeps(line);
    assert(line[a.len() as int] == ' ');
    lemma_not_quit_with_space(line, a.len() as int);
    assert(words(line) == seq![a, b, c]);
}

/// A line of one number is not a move.
pub proof fn lemma_one_number_wrong_arity(x: i32)
    ensures
        command_of(decimal_text(x as int)) == CommandSpec::WrongArity,
{
    let a = decimal_text(x as int);
    lemma_decimal_text(x as int);
    lemma_trim_keeps(a);
    lemma_words_without_white(a);
    if a.len() == 4 {
        assert(a[0] == '-' || is_digit(a[0]));
        assert(ascii_lower(a[0]) != ascii_lower('q'));
        assert(ascii_lower(a[0]) != ascii_lower('e'));
        assert(seq!['q', 'u', 'i', 't'][0] == 'q');
        assert(seq!['e', 'x', 'i', 't'][0] == 'e');
    }
    assert(words(a) == seq![a]);
}

/// `quit` or `exit` in any mix of ASCII letter case ends the session.
pub proof fn lemma_quit_in_any_case(t: Seq<char>)
    requires
        t.len() == 4,
        (forall|i: int| 0 <= i < 4 ==> #[trigger] t[i] == seq!['q', 'u', 'i', 't'][i] || t[i] == seq![
            'Q',
            'U',
            'I',
            'T',
        ][i]) || (forall|i: int| 0 <= i < 4 ==> #[trigger] t[i] == seq!['e', 'x', 'i', 't'][i] || t[i]
            == seq!['E', 'X', 'I', 'T'][i]),
    ensures
        command_of(t) == CommandSpec::Quit,
{
    let q = seq!['q', 'u', 'i', 't'];
    let qu = seq!['Q', 'U', 'I', 'T'];
    let e = seq!['e', 'x', 'i', 't'];
    let eu = seq!['E', 'X', 'I', 'T'];
    assert(q[0] == 'q' && q[1] == 'u' && q[2] == 'i' && q[3] == 't');
    assert(qu[0] == 'Q' && qu[1] == 'U' && qu[2] == 'I' && qu[3] == 'T');
    assert(e[0] == 'e' && e[1] == 'x' && e[2] == 'i' && e[3] == 't');
    assert(eu[0] == 'E' && eu[1] == 'X' && eu[2] == 'I' && eu[3] == 'T');
    assert(t[0] == q[0] || t[0] == qu[0] || t[0] == e[0] || t[0] == eu[0]);
    assert(t[3] == q[3] || t[3] == qu[3]);
    lemma_trim_keeps(t);
    if forall|i: int| 0 <= i < 4 ==> #[trigger] t[i] == q[i] || t[i] == qu[i] {
        assert forall|i: int| 0 <= i < 4 implies #[trigger] ascii_lower(t[i]) == ascii_lower(q[i]) by {
            assert(t[i] == q[i] || t[i] == qu[i]);
        }
        assert(eq_ignore_ascii_case(t, q));
    } else {
        assert forall|i: int| 0 <= i < 4 implies #[trigger] ascii_lower(t[i]) == ascii_lower(e[i]) by {
            assert(t[i] == e[i] || t[i] == eu[i]);
        }
        assert(eq_ignore_ascii_case(t, e));
    }
}

/// The characters a typed line may carry around and between its words here:
/// space, tab, line feed and carriage return.
pub open spec fn line_spacing() -> Seq<char> {
    seq![' ', '\t', '\n', '\r']
}

/// Every character of `s` is one of [`line_spacing`].
pub open spec fn spacing_only(s: Seq<char>) -> bool {
    forall|i: int| 0 <= i < s.len() ==> line_spacing().contains(#[trigger] s[i])
}

proof fn lemma_spacing_is_white(s: Seq<char>)
    requires
        spacing_only(s),
    ensures
        forall|i: int| 0 <= i < s.len() ==> is_white(#[trigger] s[i]),
{
    let sp = line_spacing();
    assert(sp[0] == ' ' && sp[1] == '\t' && sp[2] == '\n' && sp[3] == '\r');
    assert forall|i: int| 0 <= i < s.len() implies is_white(#[trigger] s[i]) by {
        assert(sp.contains(s[i]));
        let k = choose|k: int| 0 <= k < sp.len() && sp[k] == s[i];
        assert(k == 0 || k == 1 || k == 2 || k == 3);
    }
}

proof fn lemma_words_after_gap(p: Seq<char>, done: Seq<Seq<char>>, current: Seq<char>, gap: Seq<char>)
    requires
        scan_words(p) == (done, current),
        current.len() > 0,
        gap.len() > 0,
        forall|i: int| 0 <= i < gap.len() ==> is_white(#[trigger] gap[i]),
    ensures
        scan_words(p + gap) == (done.push(current), Seq::<char>::empty()),
    decreases gap.len(),
{
    let shorter = gap.drop_last();
    assert((p + gap).drop_last() == p + shorter);
    assert((p + gap).last() == gap[gap.len() - 1]);
    if gap.len() > 1 {
        assert forall|i: int| 0 <= i < shorter.len() implies is_white(#[trigger] shorter[i]) by {
            assert(shorter[i] == gap[i]);
        }
        lemma_words_after_gap(p, done, current, shorter);
    } else {
        assert(p + shorter == p);
    }
}

proof fn lemma_trim_padded(pre: Seq<char>, core: Seq<char>, post: Seq<char>)
    requires
        core.len() > 0,
        !is_white(core[0]),
        !is_white(core.last()),
        forall|i: int| 0 <= i < pre.len() ==> is_white(#[trigger] pre[i]),
        forall|i: int| 0 <= i < post.len() ==> is_white(#[trigger] post[i]),
    ensures
        trim(pre + core + post) == core,
{
    let all = pre + core + post;
    assert forall|j: int| 0 <= j < pre.len() implies is_white(#[trigger] all[j]) by {
        assert(all[j] == pre[j]);
    }
    lemma_trim_start_skip(all, pre.len() as int);
    let rest = all.skip(pre.len() as int);
    assert(rest == core + post);
    assert(rest[0] == core[0]);
    assert(trim_start(all) == rest);
    assert forall|j: int| core.len() <= j < rest.len() implies is_white(#[trigger] rest[j]) by {
        assert(rest[j] == post[j - core.len()]);
    }
    lemma_trim_end_take(rest, core.len() as int);
    assert(rest.take(core.len() as int) == core);
    assert(trim_end(core) == core);
}

/// A typed line with two `i32` coordinates in decimal, separated by spaces,
/// tabs or line breaks and surrounded by any of them (such as the line
/// break that ends the line), is read as a move to those coordinates.
pub proof fn lemma_spaced_coordinates_read_back(x: i32, y: i32, pre: Seq<char>, gap: Seq<char>, post: Seq<char>)
    requires
        spacing_only(pre),
        spacing_only(gap),
        spacing_only(post),
        gap.len() > 0,
    ensures
        command_of(pre + decimal_text(x as int) + gap + decimal_text(y as int) + post) == (CommandSpec::Move { x, y }),
{
    let a = decimal_text(x as int);
    let b = decimal_text(y as int);
    lemma_decimal_text(x as int);
    lemma_decimal_text(y as int);
    lemma_spacing_is_white(pre);
    lemma_spacing_is_white(gap);
    lemma_spacing_is_white(post);
    let core = a + gap + b;
    assert(core[0] == a[0]);
    assert(core.last() == b.last());
    assert(pre + a + gap + b + post == pre + core + post);
    lemma_trim_padded(pre, core, post);
    lemma_words_without_white(a);
    assert(Seq::<char>::empty() + a == a);
    lemma_words_after_gap(a, Seq::<Seq<char>>::empty(), a, gap);
    assert(Seq::<Seq<char>>::empty().push(a) == seq![a]);
    lemma_words_after(a + gap, seq![a], b);
    assert(words(core) == seq![a, b]);
    assert(core[a.len() as int] == gap[0]);
    if core.len() == 4 {
        let q = seq!['q', 'u', 'i', 't'];
        let e = seq!['e', 'x', 'i', 't'];
        assert(q[0] == 'q' && q[1] == 'u' && q[2] == 'i' && q[3] == 't');
        assert(e[0] == 'e' && e[1] == 'x' && e[2] == 'i' && e[3] == 't');
        let k = a.len() as int;
        assert(is_white(core[k]));
        assert(ascii_lower(core[k]) != ascii_lower(q[k]));
        assert(ascii_lower(core[k]) != ascii_lower(e[k]));
    }
}

/// The characters of `line`, in order.
fn chars_of(line: &str) -> (out: Vec<char>)
    ensures
        out@ == line@,
{
    let mut out: Vec<char> = Vec::new();
    for c in it: line.chars()
        invariant
            out@ == it.seq().take(it.index() as int),
    {
        out.push(c);
    }
    proof {
        broadcast use vstd::string::axiom_spec_iter;
    }
    out
}

/// Whether `c` has the Unicode `White_Space` property.
fn is_white_char(c: char) -> (b: bool)
    ensures
        b == is_white(c),
{
    let u = c as u32;
    (0x09 <= u && u <= 0x0d) || u == 0x20 || u == 0x85 || u == 0xa0 || u == 0x1680 || (0x2000 <= u && u
        <= 0x200a) || u == 0x2028 || u == 0x2029 || u == 0x202f || u == 0x205f || u == 0x3000
}

proof fn lemma_trim_start_skip(s: Seq<char>, i: int)
    requires
        0 <= i <= s.len(),
        forall|j: int| 0 <= j < i ==> is_white(#[trigger] s[j]),
    ensures
        trim_start(s) == trim_start(s.skip(i)),
    decreases i,
{
    if i > 0 {
        assert(is_white(s[0]));
        assert(s.skip(1) == s.drop_first());
        let t = s.drop_first();
        assert forall|j: int| 0 <= j < i - 1 implies is_white(#[trigger] t[j]) by {
            assert(t[j] == s[j + 1]);
        }
        lemma_trim_start_skip(t, i - 1);
        assert(t.skip(i - 1) == s.skip(i));
    } else {
        assert(s.skip(0) == s);
    }
}

proof fn lemma_trim_end_take(s: Seq<char>, k: int)
    requires
        0 <= k <= s.len(),
        forall|j: int| k <= j < s.len() ==> is_white(#[trigger] s[j]),
    ensures
        trim_end(s) == trim_end(s.take(k)),
    decreases s.len() - k,
{
    if k < s.len() {
        let t = s.drop_last();
        assert forall|j: int| k <= j < t.len() implies is_white(#[trigger] t[j]) by {
            assert(t[j] == s[j]);
        }
        lemma_trim_end_take(t, k);
        assert(t.take(k) == s.take(k));
    } else {
        assert(s.take(k) == s);
    }
}

/// `s` without leading and trailing whitespace.
fn trim_chars(s: &Vec<char>) -> (t: Vec<char>)
    ensures
        t@ == trim(s@),
{
    let n = s.len();
    let mut i: usize = 0;
    while i < n && is_white_char(s[i])
        invariant
            n == s@.len(),
            0 <= i <= n,
            forall|j: int| 0 <= j < i ==> is_white(#[trigger] s@[j]),
        decreases n - i,
    {
        i = i + 1;
    }
    proof {
        lemma_trim_start_skip(s@, i as int);
    }
    let ghost rest = s@.skip(i as int);
    assert(trim_start(rest) == rest);
    let mut k: usize = n;
    while k > i && is_white_char(s[k - 1])
        invariant
            n == s@.len(),
            0 <= i <= k <= n,
            forall|j: int| k <= j < n ==> is_white(#[trigger] s@[j]),
        decreases k,
    {
        k = k - 1;
    }
    proof {
        assert forall|j: int| k - i <= j < rest.len() implies is_white(#[trigger] rest[j]) by {
            assert(rest[j] == s@[j + i]);
        }
        lemma_trim_end_take(rest, k - i);
        if k > i {
            assert(rest.take(k - i).last() == s@[k - 1]);
        }
        assert(rest.take(k - i) == s@.subrange(i as int, k as int));
    }
    let t = vstd::slice::slice_to_vec(vstd::slice::slice_subrange(s.as_slice(), i, k));
    t
}

/// The words of `s`, in order.
fn split_words(s: &Vec<char>) -> (parts: Vec<Vec<char>>)
    ensures
        parts@.map_values(|p: Vec<char>| p@) == words(s@),
{
    let mut done: Vec<Vec<char>> = Vec::new();
    let mut current: Vec<char> = Vec::new();
    let n = s.len();
    let mut i: usize = 0;
    while i < n
        invariant
            n == s@.len(),
            0 <= i <= n,
            (done@.map_values(|p: Vec<char>| p@), current@) == scan_words(s@.take(i as int)),
        decreases n - i,
    {
        let c = s[i];
        proof {
            assert(s@.take(i + 1).drop_last() == s@.take(i as int));
            assert(s@.take(i + 1).last() == c);
        }
        if is_white_char(c) {
            if current.len() > 0 {
                let mut finished: Vec<char> = Vec::new();
                std::mem::swap(&mut finished, &mut current);
                let ghost before = done@;
                done.push(finished);
                assert(done@.map_values(|p: Vec<char>| p@) == before.map_values(|p: Vec<char>| p@).push(
                    finished@,
                ));
            }
        } else {
            current.push(c);
        }
        i = i + 1;
    }
    assert(s@.take(n as int) == s@);
    if current.len() > 0 {
        let ghost before = done@;
        done.push(current);
        assert(done@.map_values(|p: Vec<char>| p@) == before.map_values(|p: Vec<char>| p@).push(current@));
    }
    done
}

/// Whether `a` equals the ASCII lower-case word `lower`, up to ASCII letter case.
fn matches_ignoring_case(a: &Vec<char>, lower: &[char]) -> (b: bool)
    requires
        forall|i: int| 0 <= i < lower@.len() ==> #[trigger] ascii_lower(lower@[i]) == lower@[i] as u32,
    ensures
        b == eq_ignore_ascii_case(a@, lower@),
{
    if a.len() != lower.len() {
        return false;
    }
    let mut i: usize = 0;
    while i < a.len()
        invariant
            a@.len() == lower@.len(),
            forall|i: int| 0 <= i < lower@.len() ==> #[trigger] ascii_lower(lower@[i]) == lower@[i] as u32,
            0 <= i <= a@.len(),
            forall|j: int| 0 <= j < i ==> #[trigger] ascii_lower(a@[j]) == ascii_lower(lower@[j]),
        decreases a@.len() - i,
    {
        let u = a[i] as u32;
        let folded = if 0x41 <= u && u <= 0x5a {
            u + 0x20
        } else {
            u
        };
        if folded != lower[i] as u32 {
            assert(ascii_lower(a@[i as int]) != ascii_lower(lower@[i as int]));
            return false;
        }
        i = i + 1;
    }
    true
}

proof fn lemma_decimal_value_grows(s: Seq<char>)
    requires
        s.len() > 0,
        is_digit(s.last()),
        decimal_value(s.drop_last()) >= 0,
    ensures
        decimal_value(s) >= decimal_value(s.drop_last()),
{
}

proof fn lemma_decimal_value_nonneg(s: Seq<char>)
    requires
        all_digits(s),
    ensures
        decimal_value(s) >= 0,
    decreases s.len(),
{
    if s.len() > 0 {
        let t = s.drop_last();
        assert forall|i: int| 0 <= i < t.len() implies #[trigger] is_digit(t[i]) by {
            assert(t[i] == s[i]);
        }
        lemma_decimal_value_nonneg(t);
        assert(is_digit(s[s.len() - 1]));
    }
}

/// The `i32` that `w` writes, if it writes one.
fn parse_int(w: &Vec<char>) -> (r: Option<i32>)
    ensures
        r == parse_i32(w@),
{
    let n = w.len();
    let negative = n > 0 && w[0] == '-';
    let start: usize = if n > 0 && (w[0] == '-' || w[0] == '+') {
        1
    } else {
        0
    };
    let ghost digits = if n > 0 && (w@[0] == '-' || w@[0] == '+') {
        w@.drop_first()
    } else {
        w@
    };
    assert(digits == w@.skip(start as int));
    if start == n {
        return None;
    }
    let limit: i64 = 0x8000_0000;
    let mut acc: i64 = 0;
    let mut big = false;
    let mut i: usize = start;
    while i < n
        invariant
            n == w@.len(),
            start <= i <= n,
            digits == w@.skip(start as int),
            digits == (if w@.len() > 0 && (w@[0] == '-' || w@[0] == '+') {
                w@.drop_first()
            } else {
                w@
            }),
            limit == 0x8000_0000,
            all_digits(w@.subrange(start as int, i as int)),
            !big ==> acc == decimal_value(w@.subrange(start as int, i as int)) && 0 <= acc <= limit,
            big ==> decimal_value(w@.subrange(start as int, i as int)) > limit,
        decreases n - i,
    {
        let ghost before = w@.subrange(start as int, i as int);
        let ghost after = w@.subrange(start as int, i + 1);
        assert(after.drop_last() == before);
        let u = w[i] as u32;
        if u < 0x30 || u > 0x39 {
            assert(digits[i - start] == w@[i as int]);
            assert(!is_digit(digits[i - start]));
            assert(!all_digits(digits));
            assert(parse_i32(w@) == None::<i32>);
            return None;
        }
        assert forall|j: int| 0 <= j < after.len() implies #[trigger] is_digit(after[j]) by {
            if j < before.len() {
                assert(after[j] == before[j]);
            }
        }
        proof {
            lemma_decimal_value_nonneg(before);
            lemma_decimal_value_grows(after);
        }
        if !big {
            acc = acc * 10 + (u - 0x30) as i64;
            if acc > limit {
                big = true;
            }
        }
        i = i + 1;
    }
    assert(w@.subrange(start as int, n as int) == digits);
    if big {
        return None;
    }
    let v: i64 = if negative {
        -acc
    } else {
        acc
    };
    if v < -0x8000_0000 || v > 0x7fff_ffff {
        return None;
    }
    Some(v as i32)
}

/// Reads what a line typed at the prompt asks for.
pub fn parse_command(line: &str) -> (c: Command)
    ensures
        command_view(c) == command_of(line@),
{
    let chars = chars_of(line);
    let t = trim_chars(&chars);
    let quit = ['q', 'u', 'i', 't'];
    let exit = ['e', 'x', 'i', 't'];
    assert(quit@ == seq!['q', 'u', 'i', 't']);
    assert(exit@ == seq!['e', 'x', 'i', 't']);
    if matches_ignoring_case(&t, &quit) || matches_ignoring_case(&t, &exit) {
        return Command::Quit;
    }
    let parts = split_words(&t);
    if parts.len() != 2 {
        return Command::WrongArity;
    }
    assert(parts@.map_values(|p: Vec<char>| p@)[0] == parts@[0]@);
    assert(parts@.map_values(|p: Vec<char>| p@)[1] == parts@[1]@);
    let x = match parse_int(&parts[0]) {
        Some(x) => x,
        None => return Command::BadX(vstd::slice::slice_to_vec(parts[0].as_slice())),
    };
    let y = match parse_int(&parts[1]) {
        Some(y) => y,
        None => return Command::BadY(vstd::slice::slice_to_vec(parts[1].as_slice())),
    };
    Command::Move { x, y }
}

} // verus!
