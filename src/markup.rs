use vstd::prelude::*;

use crate::text::compare_str;

verus! {

/// Index of the first `c` in `s`, or its length when there is none.
pub open spec fn first_index(s: Seq<char>, c: char) -> int
    decreases s.len(),
{
    if s.len() == 0 || s[0] == c {
        0
    } else {
        1 + first_index(s.drop_first(), c)
    }
}

proof fn lemma_first_index(s: Seq<char>, c: char)
    ensures
        0 <= first_index(s, c) <= s.len(),
        first_index(s, c) < s.len() ==> s[first_index(s, c)] == c,
    decreases s.len(),
{
    if s.len() > 0 && s[0] != c {
        lemma_first_index(s.drop_first(), c);
    }
}

/// `msg` with every `<...>` markup tag removed; a `<` with no `>` after it stays.
pub open spec fn stripped(s: Seq<char>) -> Seq<char>
    decreases s.len(),
{
    if s.len() == 0 {
        Seq::empty()
    } else if s[0] != '<' {
        seq![s[0]] + stripped(s.drop_first())
    } else {
        let e = first_index(s, '>');
        if 0 <= e < s.len() {
            stripped(s.subrange(e + 1, s.len() as int))
        } else {
            seq!['<'] + stripped(s.drop_first())
        }
    }
}

/// Removes `<style>` markup from a message, keeping the text between tags.
pub fn strip_tags(msg: &str) -> (r: String)
    ensures
        r@ == stripped(msg@),
{
    let n = msg.unicode_len();
    let mut out = String::new();
    let mut i: usize = 0;
    assert(msg@.subrange(0, n as int) =~= msg@);
    while i < n
        invariant
            n == msg@.len(),
            i <= n,
            out@ + stripped(msg@.subrange(i as int, n as int)) == stripped(msg@),
        decreases n - i,
    {
        let ghost rest = msg@.subrange(i as int, n as int);
        let c = msg.get_char(i);
        assert(rest[0] == c);
        if c != '<' {
            let ghost o0 = out@;
            out.append(msg.substring_char(i, i + 1));
            assert(msg@.subrange(i as int, i + 1) =~= seq![c]);
            assert(rest.drop_first() =~= msg@.subrange(i + 1, n as int));
            assert(out@ + stripped(msg@.subrange(i + 1, n as int)) =~= o0 + stripped(rest));
            i = i + 1;
        } else {
            let mut j: usize = i;
            while j < n && msg.get_char(j) != '>'
                invariant
                    n == msg@.len(),
                    i <= j <= n,
                    rest == msg@.subrange(i as int, n as int),
                    first_index(rest, '>') == (j - i) + first_index(msg@.subrange(j as int, n as int), '>'),
                decreases n - j,
            {
                assert(msg@.subrange(j as int, n as int).drop_first() =~= msg@.subrange(j + 1, n as int));
                j = j + 1;
            }
            proof {
                assert(rest =~= msg@.subrange(i as int, n as int));
                if j < n {
                    assert(msg@.subrange(j as int, n as int)[0] == '>');
                } else {
                    assert(msg@.subrange(j as int, n as int).len() == 0);
                }
                lemma_first_index(rest, '>');
            }
            if j < n {
                assert(rest.subrange((j - i) + 1, rest.len() as int) =~= msg@.subrange(j + 1, n as int));
                i = j + 1;
            } else {
                let ghost o0 = out@;
                out.append("<");
                proof {
                    reveal_strlit("<");
                }
                assert(rest.drop_first() =~= msg@.subrange(i + 1, n as int));
                assert(out@ + stripped(msg@.subrange(i + 1, n as int)) =~= o0 + stripped(rest));
                i = i + 1;
            }
        }
    }
    assert(out@ + stripped(msg@.subrange(n as int, n as int)) =~= out@);
    out
}

pub open spec fn starts_with(s: Seq<char>, p: Seq<char>) -> bool {
    s.len() >= p.len() && s.subrange(0, p.len() as int) == p
}

/// The placeholders of a line template, in the order they are tried.
pub open spec fn placeholders() -> Seq<Seq<char>> {
    seq![
        seq!['{', 't', 'a', 'g', '}'],
        seq!['{', 's', 'c', 'o', 'p', 'e', '}'],
        seq!['{', 'i', 'c', 'o', 'n', '}'],
        seq!['{', 'm', 's', 'g', '}'],
    ]
}

/// The first placeholder that `s` starts with.
pub open spec fn placeholder_at(s: Seq<char>) -> Option<Seq<char>> {
    if starts_with(s, placeholders()[0]) {
        Some(placeholders()[0])
    } else if starts_with(s, placeholders()[1]) {
        Some(placeholders()[1])
    } else if starts_with(s, placeholders()[2]) {
        Some(placeholders()[2])
    } else if starts_with(s, placeholders()[3]) {
        Some(placeholders()[3])
    } else {
        None
    }
}

/// `cur` as a part of its own, unless empty.
pub open spec fn flush(cur: Seq<char>) -> Seq<Seq<char>> {
    if cur.len() > 0 {
        seq![cur]
    } else {
        Seq::empty()
    }
}

/// The rest `s` of a line template split into placeholders and the literal runs
/// between them, `cur` being the literal run read so far.
pub open spec fn parts(s: Seq<char>, cur: Seq<char>) -> Seq<Seq<char>>
    decreases s.len(),
{
    if s.len() == 0 {
        flush(cur)
    } else {
        match placeholder_at(s) {
            Some(ph) => if 0 < ph.len() <= s.len() {
                flush(cur) + seq![ph] + parts(s.subrange(ph.len() as int, s.len() as int), Seq::empty())
            } else {
                Seq::empty()
            },
            None => parts(s.drop_first(), cur.push(s[0])),
        }
    }
}

/// Which placeholder, if any, starts at character `i` of `s`, with its length.
fn match_placeholder(s: &str, i: usize) -> (r: Option<(&'static str, usize)>)
    requires
        i < s@.len(),
    ensures
        match placeholder_at(s@.subrange(i as int, s@.len() as int)) {
            Some(ph) => r matches Some(m) && m.0@ == ph && m.1 == ph.len(),
            None => r is None,
        },
{
    let n = s.unicode_len();
    let ghost rest = s@.subrange(i as int, n as int);
    proof {
        reveal_strlit("{tag}");
        reveal_strlit("{scope}");
        reveal_strlit("{icon}");
        reveal_strlit("{msg}");
        assert("{tag}"@ =~= placeholders()[0]);
        assert("{scope}"@ =~= placeholders()[1]);
        assert("{icon}"@ =~= placeholders()[2]);
        assert("{msg}"@ =~= placeholders()[3]);
    }
    let names: [(&'static str, usize); 4] = [("{tag}", 5), ("{scope}", 7), ("{icon}", 6), ("{msg}", 5)];
    let mut k: usize = 0;
    while k < 4
        invariant
            n == s@.len(),
            i < n,
            rest == s@.subrange(i as int, n as int),
            k <= 4,
            names@ == seq![("{tag}", 5usize), ("{scope}", 7usize), ("{icon}", 6usize), ("{msg}", 5usize)],
            forall|j: int| 0 <= j < 4 ==> (#[trigger] names@[j]).0@ == placeholders()[j] && names@[j].1 == placeholders()[j].len(),
            forall|j: int| 0 <= j < k ==> !starts_with(rest, #[trigger] placeholders()[j]),
        decreases 4 - k,
    {
        let (name, len) = names[k];
        if len <= n - i && compare_str(s.substring_char(i, i + len), name) == 0 {
            assert(s@.subrange(i as int, i + len) =~= rest.subrange(0, len as int));
            return Some((name, len));
        }
        proof {
            if starts_with(rest, placeholders()[k as int]) {
                assert(s@.subrange(i as int, i + len) =~= rest.subrange(0, len as int));
            }
        }
        k = k + 1;
    }
    None
}

/// Splits a line template into the placeholders `{tag}`, `{scope}`, `{icon}`, `{msg}`
/// and the literal text between them, in order.
pub fn parse_structure(structure: &str) -> (r: Vec<String>)
    ensures
        r@.map_values(|x: String| x@) == parts(structure@, Seq::empty()),
{
    let n = structure.unicode_len();
    let mut out: Vec<String> = Vec::new();
    let mut current = String::new();
    let mut i: usize = 0;
    assert(structure@.subrange(0, n as int) =~= structure@);
    while i < n
        invariant
            n == structure@.len(),
            i <= n,
            out@.map_values(|x: String| x@) + parts(structure@.subrange(i as int, n as int), current@)
                == parts(structure@, Seq::empty()),
        decreases n - i,
    {
        let ghost rest = structure@.subrange(i as int, n as int);
        let ghost o0 = out@.map_values(|x: String| x@);
        match match_placeholder(structure, i) {
            Some((name, len)) => {
                let ghost c0 = current@;
                assert(placeholder_at(rest) == Some(name@));
                assert(parts(rest, c0) == flush(c0) + seq![name@] + parts(rest.subrange(len as int, rest.len() as int), Seq::empty()));
                if current.unicode_len() > 0 {
                    out.push(current);
                } 
                out.push(String::from_str(name));
                current = String::new();
                assert(rest.subrange(len as int, rest.len() as int) =~= structure@.subrange(i + len, n as int));
                assert(out@.map_values(|x: String| x@) =~= o0 + flush(c0) + seq![name@]);
                i = i + len;
            },
            None => {
                let ghost c0 = current@;
                assert(placeholder_at(rest) is None);
                assert(parts(rest, c0) == parts(rest.drop_first(), c0.push(rest[0])));
                current.append(structure.substring_char(i, i + 1));
                assert(structure@.subrange(i as int, i + 1) =~= seq![rest[0]]);
                assert(rest.drop_first() =~= structure@.subrange(i + 1, n as int));
                assert(current@ =~= c0.push(rest[0]));
                i = i + 1;
            },
        }
    }
    let ghost o0 = out@.map_values(|x: String| x@);
    let ghost c0 = current@;
    if current.unicode_len() > 0 {
        out.push(current);
    }
    assert(out@.map_values(|x: String| x@) =~= o0 + flush(c0));
    out
}

} // verus!
