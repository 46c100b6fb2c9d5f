//! Tables as comma-separated text: one row for each line, one field for each
//! stretch between commas, with the blank space around a field removed.

use vstd::prelude::*;
use vstd::string::StrSliceExecFns;

verus! {

/// `c` is blank space: one of the characters with the property White_Space.
pub open spec fn is_space(c: char) -> bool {
    let n = c as u32;
    ||| 0x09 <= n <= 0x0d
    ||| n == 0x20
    ||| n == 0x85
    ||| n == 0xa0
    ||| n == 0x1680
    ||| 0x2000 <= n <= 0x200a
    ||| n == 0x2028
    ||| n == 0x2029
    ||| n == 0x202f
    ||| n == 0x205f
    ||| n == 0x3000
}

/// The stretches of `s` between occurrences of `sep`, in order; one more
/// than there are occurrences.
pub open spec fn split_on(s: Seq<char>, sep: char) -> Seq<Seq<char>>
    decreases s.len(),
{
    if s.len() == 0 {
        seq![Seq::empty()]
    } else {
        let rest = split_on(s.drop_last(), sep);
        if s.last() == sep {
            rest.push(Seq::empty())
        } else {
            rest.update(rest.len() - 1, rest.last().push(s.last()))
        }
    }
}

/// `s` without the blank space at its start.
pub open spec fn trim_start(s: Seq<char>) -> Seq<char>
    decreases s.len(),
{
    if s.len() > 0 && is_space(s[0]) {
        trim_start(s.drop_first())
    } else {
        s
    }
}

/// `s` without the blank space at its end.
pub open spec fn trim_end(s: Seq<char>) -> Seq<char>
    decreases s.len(),
{
    if s.len() > 0 && is_space(s.last()) {
        trim_end(s.drop_last())
    } else {
        s
    }
}

/// `s` without the blank space at its start and at its end.
pub open spec fn trimmed(s: Seq<char>) -> Seq<char> {
    trim_end(trim_start(s))
}

/// The fields of one line: its stretches between commas, trimmed.
pub open spec fn fields_of(line: Seq<char>) -> Seq<Seq<char>> {
    split_on(line, ',').map_values(|f: Seq<char>| trimmed(f))
}

/// The rows of a text: the fields of each of its lines.
pub open spec fn table_of(s: Seq<char>) -> Seq<Seq<Seq<char>>> {
    split_on(s, '\n').map_values(|line: Seq<char>| fields_of(line))
}

/// The characters of `s`, in order.
pub fn chars_of(s: &str) -> (r: Vec<char>)
    ensures
        r@ == s@,
{
    let mut out: Vec<char> = Vec::new();
    for c in it: s.chars()
        invariant
            out@ == it.seq().take(it.index() as int),
    {
        out.push(c);
    }
    out
}

/// Whether `c` is blank space.
pub fn is_blank(c: char) -> (b: bool)
    ensures
        b == is_space(c),
{
    let n = c as u32;
    (0x09 <= n && n <= 0x0d) || n == 0x20 || n == 0x85 || n == 0xa0 || n == 0x1680 || (0x2000 <= n
        && n <= 0x200a) || n == 0x2028 || n == 0x2029 || n == 0x202f || n == 0x205f || n == 0x3000
}

/// The stretch of `s` from character `start` to character `end`, without
/// the blank space around it. `chars` holds the characters of `s`.
fn trimmed_slice<'a>(s: &'a str, chars: &Vec<char>, start: usize, end: usize) -> (r: &'a str)
    requires
        chars@ == s@,
        start <= end <= chars.len(),
    ensures
        r@ == trimmed(s@.subrange(start as int, end as int)),
{
    let ghost field = chars@.subrange(start as int, end as int);
    let mut a: usize = start;
    proof {
        assert(field.skip(0) =~= field);
    }
    while a < end && is_blank(chars[a])
        invariant
            start <= a <= end <= chars.len(),
            field == chars@.subrange(start as int, end as int),
            trim_start(field) == trim_start(field.skip(a - start)),
        decreases end - a,
    {
        proof {
            assert(field.skip(a - start)[0] == chars@[a as int]);
            assert(field.skip(a - start).drop_first() =~= field.skip(a + 1 - start));
        }
        a += 1;
    }
    let ghost rest = field.skip(a - start);
    let mut b: usize = end;
    proof {
        if a < end {
            assert(rest[0] == chars@[a as int]);
        }
        assert(trim_start(field) == rest);
        assert(rest.take(rest.len() as int) =~= rest);
    }
    while b > a && is_blank(chars[b - 1])
        invariant
            start <= a <= b <= end <= chars.len(),
            field == chars@.subrange(start as int, end as int),
            rest == field.skip(a - start),
            trim_end(rest) == trim_end(rest.take(b - a)),
        decreases b,
    {
        proof {
            assert(rest.take(b - a).last() == chars@[b - 1]);
            assert(rest.take(b - a).drop_last() =~= rest.take(b - a - 1));
        }
        b -= 1;
    }
    proof {
        if b > a {
            assert(rest.take(b - a).last() == chars@[b - 1]);
        }
        assert(trim_end(rest) == rest.take(b - a));
        assert(rest.take(b - a) =~= s@.subrange(a as int, b as int));
    }
    s.substring_char(a, b)
}

/// The table that the text `s` holds: a row for each line, and in it a
/// field for each stretch between commas, without the blank space around it.
/// A field cannot hold a comma or a line break. The fields are cut from `s`.
pub fn from_csv<'a>(s: &'a str) -> (r: Vec<Vec<&'a str>>)
    ensures
        r.len() == table_of(s@).len(),
        forall|i: int| 0 <= i < r.len() ==> (#[trigger] r[i]).len() == table_of(s@)[i].len(),
        forall|i: int, j: int|
            0 <= i < r.len() && 0 <= j < r[i].len() ==> (#[trigger] r[i][j])@ == table_of(s@)[i][j],
{
    let chars = chars_of(s);
    let mut rows: Vec<Vec<&'a str>> = Vec::new();
    let mut row: Vec<&'a str> = Vec::new();
    let mut start: usize = 0;
    let mut i: usize = 0;
    proof {
        assert(chars@.take(0) =~= Seq::empty());
        assert(split_on(Seq::empty(), '\n') =~= seq![Seq::empty()]);
        assert(split_on(Seq::empty(), ',') =~= seq![Seq::empty()]);
        assert(chars@.subrange(0, 0) =~= Seq::empty());
    }
    while i < chars.len()
        invariant
            start <= i <= chars.len(),
            chars@ == s@,
            split_on(chars@.take(i as int), '\n').len() >= 1,
            rows.len() == split_on(chars@.take(i as int), '\n').len() - 1,
            forall|k: int|
                0 <= k < rows.len() ==> (#[trigger] rows[k]).len() == fields_of(
                    split_on(chars@.take(i as int), '\n')[k],
                ).len(),
            forall|k: int, j: int|
                0 <= k < rows.len() && 0 <= j < rows[k].len() ==> (#[trigger] rows[k][j])@
                    == fields_of(split_on(chars@.take(i as int), '\n')[k])[j],
            split_on(split_on(chars@.take(i as int), '\n').last(), ',').len() >= 1,
            row.len() == split_on(split_on(chars@.take(i as int), '\n').last(), ',').len() - 1,
            forall|j: int|
                0 <= j < row.len() ==> (#[trigger] row[j])@ == trimmed(
                    split_on(split_on(chars@.take(i as int), '\n').last(), ',')[j],
                ),
            chars@.subrange(start as int, i as int) == split_on(
                split_on(chars@.take(i as int), '\n').last(),
                ',',
            ).last(),
        decreases chars.len() - i,
    {
        let c = chars[i];
        let ghost before = chars@.take(i as int);
        let ghost after = chars@.take(i + 1);
        let ghost lines = split_on(before, '\n');
        let ghost line = lines.last();
        let ghost parts = split_on(line, ',');
        proof {
            assert(after.drop_last() =~= before);
            assert(after.last() == c);
        }
        if c == '\n' {
            row.push(trimmed_slice(s, &chars, start, i));
            proof {
                assert(split_on(after, '\n') == lines.push(Seq::empty()));
                assert(row.len() == fields_of(line).len());
                assert forall|j: int| 0 <= j < row.len() implies (#[trigger] row[j])@ == fields_of(
                    line,
                )[j] by {}
            }
            rows.push(row);
            row = Vec::new();
            start = i + 1;
            proof {
                assert(split_on(Seq::empty(), ',') =~= seq![Seq::empty()]);
                assert(chars@.subrange(start as int, i + 1) =~= Seq::empty());
                assert forall|k: int| 0 <= k < rows.len() implies (#[trigger] rows[k]).len()
                    == fields_of(split_on(after, '\n')[k]).len() by {
                    assert(split_on(after, '\n')[k] == lines[k]);
                }
                assert forall|k: int, j: int|
                    0 <= k < rows.len() && 0 <= j < rows[k].len() implies (#[trigger] rows[k][j])@
                    == fields_of(split_on(after, '\n')[k])[j] by {
                    assert(split_on(after, '\n')[k] == lines[k]);
                }
            }
        } else {
            proof {
                assert(split_on(after, '\n') == lines.update(lines.len() - 1, line.push(c)));
                assert(split_on(after, '\n').last() == line.push(c));
                assert(line.push(c).drop_last() =~= line);
                assert forall|k: int| 0 <= k < rows.len() implies split_on(after, '\n')[k]
                    == lines[k] by {}
            }
            if c == ',' {
                row.push(trimmed_slice(s, &chars, start, i));
                start = i + 1;
                proof {
                    assert(split_on(line.push(c), ',') == parts.push(Seq::empty()));
                    assert(chars@.subrange(start as int, i + 1) =~= Seq::empty());
                }
            } else {
                proof {
                    assert(split_on(line.push(c), ',') == parts.update(
                        parts.len() - 1,
                        parts.last().push(c),
                    ));
                    assert(chars@.subrange(start as int, i + 1) =~= chars@.subrange(
                        start as int,
                        i as int,
                    ).push(c));
                }
            }
        }
        i += 1;
    }
    proof {
        assert(chars@.take(chars.len() as int) =~= chars@);
    }
    let ghost lines = split_on(s@, '\n');
    row.push(trimmed_slice(s, &chars, start, i));
    proof {
        assert(row.len() == fields_of(lines.last()).len());
        assert forall|j: int| 0 <= j < row.len() implies (#[trigger] row[j])@ == fields_of(
            lines.last(),
        )[j] by {}
    }
    rows.push(row);
    rows
}

} // verus!
