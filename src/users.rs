//! Contestant credentials: the text format of the users file, one
//! `name password` pair per line, and the check of a login against it.
use vstd::prelude::*;
use vstd::std_specs::iter::IteratorSpec;

verus! {

/// A contestant's credentials.
#[derive(Clone, Debug)]
pub struct User {
    pub name: String,
    pub password: String,
}

/// The characters that separate words: Unicode's `White_Space` set.
pub open spec fn is_space(c: char) -> bool {
    let v = c as u32;
    ||| 0x09 <= v <= 0x0d
    ||| v == 0x20
    ||| v == 0x85
    ||| v == 0xa0
    ||| v == 0x1680
    ||| 0x2000 <= v <= 0x200a
    ||| v == 0x2028
    ||| v == 0x2029
    ||| v == 0x202f
    ||| v == 0x205f
    ||| v == 0x3000
}

/// The pieces of `s` between line feeds (one more than there are line feeds).
pub open spec fn lines_of(s: Seq<char>) -> Seq<Seq<char>>
    decreases s.len(),
{
    if s.len() == 0 {
        seq![Seq::<char>::empty()]
    } else {
        let l = lines_of(s.drop_last());
        if s.last() == '\n' {
            l.push(Seq::<char>::empty())
        } else {
            l.update(l.len() - 1, l.last().push(s.last()))
        }
    }
}

/// The maximal runs of non-space characters of `s`, in order.
pub open spec fn words_of(s: Seq<char>) -> Seq<Seq<char>>
    decreases s.len(),
{
    if s.len() == 0 {
        seq![]
    } else {
        let w = words_of(s.drop_last());
        if is_space(s.last()) {
            w
        } else if s.len() >= 2 && !is_space(s[s.len() - 2]) {
            w.update(w.len() - 1, w.last().push(s.last()))
        } else {
            w.push(seq![s.last()])
        }
    }
}

/// The credentials that `lines` give, and the numbers (from one) of the
/// lines that are neither blank nor exactly two words.
pub open spec fn parse_lines(lines: Seq<Seq<char>>) -> (Seq<(Seq<char>, Seq<char>)>, Seq<nat>)
    decreases lines.len(),
{
    if lines.len() == 0 {
        (seq![], seq![])
    } else {
        let prev = parse_lines(lines.drop_last());
        let w = words_of(lines.last());
        if w.len() == 0 {
            prev
        } else if w.len() == 2 {
            (prev.0.push((w[0], w[1])), prev.1)
        } else {
            (prev.0, prev.1.push(lines.len()))
        }
    }
}

/// The credentials and rejected line numbers of a users file.
pub open spec fn parse_users_spec(text: Seq<char>) -> (Seq<(Seq<char>, Seq<char>)>, Seq<nat>) {
    parse_lines(lines_of(text))
}

fn is_space_exec(c: char) -> (r: bool)
    ensures
        r == is_space(c),
{
    let v = c as u32;
    (0x09 <= v && v <= 0x0d) || v == 0x20 || v == 0x85 || v == 0xa0 || v == 0x1680 || (0x2000 <= v
        && v <= 0x200a) || v == 0x2028 || v == 0x2029 || v == 0x202f || v == 0x205f || v == 0x3000
}

/// The characters of `s`, in order.
fn chars_of(s: &str) -> (r: Vec<char>)
    ensures
        r@ == s@,
{
    broadcast use vstd::string::group_string_axioms;

    let mut out: Vec<char> = Vec::new();
    let mut it = s.chars();
    loop
        invariant_except_break
            it.obeys_prophetic_iter_laws(),
            it.decrease() is Some,
            out@ + it.remaining() == s@,
        ensures
            out@ == s@,
        decreases it.decrease()->0,
    {
        match it.next() {
            Some(c) => {
                proof {
                    assert(out@.push(c) + it.remaining() =~= s@);
                }
                out.push(c);
            },
            None => {
                proof {
                    assert(out@ =~= s@);
                }
                break;
            },
        }
    }
    out
}

/// The spans of the words of `chars[from..to]`.
fn word_spans(chars: &Vec<char>, from: usize, to: usize) -> (r: Vec<(usize, usize)>)
    requires
        from <= to <= chars@.len(),
    ensures
        r@.len() == words_of(chars@.subrange(from as int, to as int)).len(),
        forall|k: int|
            0 <= k < r@.len() ==> (#[trigger] r@[k]).0 <= r@[k].1 <= to && from <= r@[k].0 && chars@.subrange(
                r@[k].0 as int,
                r@[k].1 as int,
            ) == words_of(chars@.subrange(from as int, to as int))[k],
{
    let mut spans: Vec<(usize, usize)> = Vec::new();
    let mut j: usize = from;
    while j < to
        invariant
            from <= j <= to <= chars@.len(),
            spans@.len() == words_of(chars@.subrange(from as int, j as int)).len(),
            forall|k: int|
                0 <= k < spans@.len() ==> (#[trigger] spans@[k]).0 <= spans@[k].1 <= j && from <= spans@[k].0
                    && chars@.subrange(spans@[k].0 as int, spans@[k].1 as int) == words_of(
                    chars@.subrange(from as int, j as int),
                )[k],
            j > from && !is_space(chars@[j - 1]) ==> spans@.len() > 0 && spans@.last().1 == j,
        decreases to - j,
    {
        let ghost before = chars@.subrange(from as int, j as int);
        let ghost after = chars@.subrange(from as int, j + 1);
        let ghost prev = spans@;
        proof {
            assert(after.drop_last() =~= before);
            assert(after.last() == chars@[j as int]);
            if after.len() >= 2 {
                assert(after[after.len() - 2] == chars@[j - 1]);
            }
        }
        let c = chars[j];
        if !is_space_exec(c) {
            if j > from && !is_space_exec(chars[j - 1]) {
                let last = spans.len() - 1;
                let (a, b) = spans[last];
                proof {
                    assert(spans@[last as int] == spans@.last());
                    assert(a <= b && b == j);
                    assert(words_of(after) == words_of(before).update(
                        words_of(before).len() - 1,
                        words_of(before).last().push(c),
                    ));
                    assert(chars@.subrange(a as int, j + 1) =~= chars@.subrange(a as int, j as int).push(c));
                }
                spans.set(last, (a, j + 1));
                proof {
                    assert forall|k: int| 0 <= k < spans@.len() implies (#[trigger] spans@[k]).0 <= spans@[k].1 <= j + 1
                        && from <= spans@[k].0 && chars@.subrange(spans@[k].0 as int, spans@[k].1 as int)
                        == words_of(after)[k] by {
                        if k < last {
                            assert(spans@[k] == prev[k]);
                        }
                    }
                }
            } else {
                proof {
                    assert(chars@.subrange(j as int, j + 1) =~= seq![c]);
                    assert(words_of(after) == words_of(before).push(seq![c]));
                }
                spans.push((j, j + 1));
                proof {
                    assert forall|k: int| 0 <= k < spans@.len() implies (#[trigger] spans@[k]).0 <= spans@[k].1 <= j + 1
                        && from <= spans@[k].0 && chars@.subrange(spans@[k].0 as int, spans@[k].1 as int)
                        == words_of(after)[k] by {
                        if k < prev.len() {
                            assert(spans@[k] == prev[k]);
                        }
                    }
                }
            }
        }
        j += 1;
    }
    spans
}

/// `users` and `bad` are what `lines` give.
spec fn agrees(users: Seq<User>, bad: Seq<usize>, lines: Seq<Seq<char>>) -> bool {
    let p = parse_lines(lines);
    &&& users.len() == p.0.len()
    &&& forall|k: int| 0 <= k < users.len() ==> (users[k].name@, users[k].password@) == p.0[k]
    &&& bad.len() == p.1.len()
    &&& forall|k: int| 0 <= k < bad.len() ==> bad[k] as nat == p.1[k]
}

/// Reads a users file: the credentials of each line that holds exactly two
/// words, and the numbers (from one) of the other non-blank lines.
pub fn parse_users(text: &str) -> (r: (Vec<User>, Vec<usize>))
    ensures
        r.0@.len() == parse_users_spec(text@).0.len(),
        forall|k: int|
            0 <= k < r.0@.len() ==> (r.0@[k].name@, r.0@[k].password@) == parse_users_spec(
                text@,
            ).0[k],
        r.1@.len() == parse_users_spec(text@).1.len(),
        forall|k: int| 0 <= k < r.1@.len() ==> r.1@[k] as nat == parse_users_spec(text@).1[k],
{
    let chars = chars_of(text);
    let mut users: Vec<User> = Vec::new();
    let mut bad: Vec<usize> = Vec::new();
    let mut line_number: usize = 0;
    let mut start: usize = 0;
    let mut finished = false;
    let ghost all = chars@;
    proof {
        assert(all.subrange(0, 0) =~= Seq::<char>::empty());
        assert(lines_of(all.subrange(0, 0)).drop_last() =~= Seq::<Seq<char>>::empty());
    }
    // each pass handles the line that ends at the next line feed or at the end
    while !finished
        invariant
            all == chars@,
            all == text@,
            start <= chars@.len(),
            !finished ==> lines_of(all.subrange(0, start as int)).len() == line_number + 1,
            !finished ==> line_number <= start,
            !finished ==> lines_of(all.subrange(0, start as int)).last().len() == 0,
            !finished ==> agrees(
                users@,
                bad@,
                lines_of(all.subrange(0, start as int)).drop_last(),
            ),
            finished ==> agrees(users@, bad@, lines_of(all)),
        decreases chars@.len() - start + if finished {
            0int
        } else {
            1int
        },
    {
        let mut end = start;
        while end < chars.len() && chars[end] != '\n'
            invariant
                start <= end <= chars@.len(),
                all == chars@,
                forall|k: int| start <= k < end ==> chars@[k] != '\n',
            decreases chars@.len() - end,
        {
            end += 1;
        }
        let ghost done = lines_of(all.subrange(0, start as int)).drop_last();
        let ghost line = all.subrange(start as int, end as int);
        proof {
            lemma_lines_extend(all, start as int, end as int);
            assert(lines_of(all.subrange(0, end as int)) =~= done.push(line));
            assert(lines_of(all.subrange(0, end as int)).drop_last() =~= done);
        }
        let spans = word_spans(&chars, start, end);
        if spans.len() == 2 {
            let (a0, b0) = spans[0];
            let (a1, b1) = spans[1];
            assert(spans@[0] == (a0, b0) && a0 <= b0 <= end);
            assert(spans@[1] == (a1, b1) && a1 <= b1 <= end);
            let name = String::from_str(text.substring_char(a0, b0));
            let password = String::from_str(text.substring_char(a1, b1));
            users.push(User { name, password });
        } else if spans.len() != 0 {
            proof {
                if line_number == usize::MAX {
                    assert(line.len() == 0);
                    assert(words_of(line).len() == 0);
                }
            }
            bad.push(line_number + 1);
        }
        proof {
            let p = parse_lines(done);
            let q = parse_lines(lines_of(all.subrange(0, end as int)));
            assert(q == parse_lines(done.push(line)));
            assert(done.push(line).drop_last() =~= done);
            assert(agrees(users@, bad@, lines_of(all.subrange(0, end as int))));
        }
        if end < chars.len() {
            proof {
                lemma_lines_feed(all, end as int);
                assert(lines_of(all.subrange(0, end + 1)).drop_last() =~= lines_of(
                    all.subrange(0, end as int),
                ));
            }
            line_number += 1;
            start = end + 1;
        } else {
            proof {
                assert(all.subrange(0, end as int) =~= all);
            }
            finished = true;
        }
    }
    (users, bad)
}

/// Extending a text that ends a line by characters other than line feeds
/// extends its last line.
proof fn lemma_lines_extend(s: Seq<char>, start: int, end: int)
    requires
        0 <= start <= end <= s.len(),
        forall|k: int| start <= k < end ==> s[k] != '\n',
        lines_of(s.subrange(0, start)).last().len() == 0,
    ensures
        lines_of(s.subrange(0, end)).len() == lines_of(s.subrange(0, start)).len(),
        lines_of(s.subrange(0, end)).drop_last() == lines_of(s.subrange(0, start)).drop_last(),
        lines_of(s.subrange(0, end)).last() == s.subrange(start, end),
    decreases end - start,
{
    lemma_lines_nonempty(s.subrange(0, end));
    lemma_lines_nonempty(s.subrange(0, start));
    if end > start {
        lemma_lines_extend(s, start, end - 1);
        let t = s.subrange(0, end);
        assert(t.drop_last() =~= s.subrange(0, end - 1));
        lemma_lines_nonempty(t.drop_last());
        assert(s.subrange(start, end) =~= s.subrange(start, end - 1).push(s[end - 1]));
        assert(lines_of(t).drop_last() =~= lines_of(t.drop_last()).drop_last());
    } else {
        assert(s.subrange(start, end) =~= Seq::<char>::empty());
    }
}

/// A line feed starts a new, empty line.
proof fn lemma_lines_feed(s: Seq<char>, end: int)
    requires
        0 <= end < s.len(),
        s[end] == '\n',
    ensures
        lines_of(s.subrange(0, end + 1)) == lines_of(s.subrange(0, end)).push(Seq::<char>::empty()),
{
    assert(s.subrange(0, end + 1).drop_last() =~= s.subrange(0, end));
}

proof fn lemma_lines_nonempty(s: Seq<char>)
    ensures
        lines_of(s).len() >= 1,
    decreases s.len(),
{
    if s.len() > 0 {
        lemma_lines_nonempty(s.drop_last());
    }
}

/// Some user has exactly this name and password.
pub open spec fn credentials_match(users: Seq<User>, name: Seq<char>, password: Seq<char>) -> bool {
    exists|i: int| 0 <= i < users.len() && users[i].name@ == name && users[i].password@ == password
}

/// Whether `name` and `password` belong to one of `users`.
pub fn is_password_correct(users: &Vec<User>, name: &str, password: &str) -> (r: bool)
    ensures
        r == credentials_match(users@, name@, password@),
{
    let wanted_name = String::from_str(name);
    let wanted_password = String::from_str(password);
    let mut i: usize = 0;
    while i < users.len()
        invariant
            i <= users@.len(),
            wanted_name@ == name@,
            wanted_password@ == password@,
            forall|k: int|
                0 <= k < i ==> !(users@[k].name@ == name@ && users@[k].password@ == password@),
        decreases users@.len() - i,
    {
        if users[i].name == wanted_name && users[i].password == wanted_password {
            assert(users@[i as int].name@ == name@ && users@[i as int].password@ == password@);
            return true;
        }
        i += 1;
    }
    false
}

} // verus!
