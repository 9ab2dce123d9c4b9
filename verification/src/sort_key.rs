//! Natural sort keys: a name is cut into runs of decimal digits and runs of
//! other characters, and every digit run is padded with zeros, so that
//! comparing the pieces as text orders digit runs by their value.

use vstd::prelude::*;

verus! {

/// The width to which a digit run is padded.
pub const PAD_WIDTH: usize = 5;

/// Whether `c` is one of the decimal digits `0` to `9`.
pub open spec fn is_digit(c: char) -> bool {
    '0' <= c && c <= '9'
}

/// The maximal runs of `s`: `s` cut wherever a digit stands next to a
/// character that is no digit.
pub open spec fn runs(s: Seq<char>) -> Seq<Seq<char>>
    decreases s.len(),
{
    if s.len() == 0 {
        Seq::empty()
    } else {
        let before = runs(s.drop_last());
        if s.len() >= 2 && is_digit(s[s.len() - 2]) == is_digit(s.last()) {
            before.drop_last().push(before.last().push(s.last()))
        } else {
            before.push(seq![s.last()])
        }
    }
}

/// `n` zeros.
pub open spec fn zeros(n: nat) -> Seq<char> {
    Seq::new(n, |i: int| '0')
}

/// `run` with zeros put before it until it is `PAD_WIDTH` long; a longer run
/// stays as it is.
pub open spec fn pad(run: Seq<char>) -> Seq<char> {
    if run.len() < PAD_WIDTH {
        zeros((PAD_WIDTH - run.len()) as nat) + run
    } else {
        run
    }
}

/// What the key holds for a run: a digit run padded, any other run
/// unchanged.
pub open spec fn stored(run: Seq<char>) -> Seq<char> {
    if run.len() > 0 && is_digit(run[0]) {
        pad(run)
    } else {
        run
    }
}

/// What the key holds for each of the runs, in order.
pub open spec fn all_stored(runs: Seq<Seq<char>>) -> Seq<Seq<char>> {
    runs.map_values(|run: Seq<char>| stored(run))
}

/// The sort key of the name `s`: its runs in order, each as `stored` gives
/// it.
pub open spec fn sort_key(s: Seq<char>) -> Seq<Seq<char>> {
    all_stored(runs(s))
}

/// The characters of each segment, in order.
pub open spec fn texts(segments: Seq<Vec<char>>) -> Seq<Seq<char>> {
    segments.map_values(|segment: Vec<char>| segment@)
}

/// The sort key of one name: its segments in order.
#[derive(Clone, Debug, PartialEq, Eq)]
pub struct SortKey {
    pub segments: Vec<Vec<char>>,
}

impl View for SortKey {
    type V = Seq<Seq<char>>;

    open spec fn view(&self) -> Seq<Seq<char>> {
        texts(self.segments@)
    }
}

/// Tells whether `c` is a decimal digit.
pub fn char_is_digit(c: char) -> (r: bool)
    ensures
        r == is_digit(c),
{
    '0' <= c && c <= '9'
}

/// A name that is not empty has a last run; that run is not empty and is of
/// the kind of the name's last character.
pub proof fn lemma_last_run(s: Seq<char>)
    requires
        s.len() > 0,
    ensures
        runs(s).len() > 0,
        runs(s).last().len() > 0,
        is_digit(runs(s).last()[0]) == is_digit(s.last()),
    decreases s.len(),
{
    if s.len() >= 2 {
        lemma_last_run(s.drop_last());
    }
}

/// A run: not empty, and its characters are all digits or all no digits.
pub open spec fn is_run(run: Seq<char>) -> bool {
    &&& run.len() > 0
    &&& forall|j: int| 0 <= j < run.len() ==> is_digit(#[trigger] run[j]) == is_digit(run[0])
}

/// `parts` cuts a name into runs: each part is a run, and of two neighbours
/// one is made of digits and the other is not.
pub open spec fn is_run_partition(parts: Seq<Seq<char>>) -> bool {
    &&& forall|i: int| 0 <= i < parts.len() ==> is_run(#[trigger] parts[i])
    &&& forall|i: int|
        0 <= i < parts.len() - 1 ==> is_digit(#[trigger] parts[i][0]) != is_digit(parts[i + 1][0])
}

/// The runs of a name, laid end to end, give the name back; each is a run;
/// and of two neighbours one is made of digits and the other is not.
pub proof fn lemma_runs_partition(s: Seq<char>)
    ensures
        runs(s).flatten() == s,
        is_run_partition(runs(s)),
    decreases s.len(),
{
    let r = runs(s);
    r.lemma_flatten_and_flatten_alt_are_equivalent();
    if s.len() == 0 {
        assert(r.flatten_alt() =~= s);
    } else {
        let init = s.drop_last();
        let before = runs(init);
        let c = s.last();
        lemma_runs_partition(init);
        before.lemma_flatten_and_flatten_alt_are_equivalent();
        assert(init.push(c) =~= s);
        if s.len() >= 2 && is_digit(s[s.len() - 2]) == is_digit(c) {
            lemma_last_run(init);
            let grown = before.last().push(c);
            assert(r.drop_last() =~= before.drop_last());
            assert(r.last() == grown);
            assert(r.flatten_alt() =~= s);
            assert(is_run(grown)) by {
                assert(is_run(before.last()));
                assert forall|j: int| 0 <= j < grown.len() implies is_digit(#[trigger] grown[j])
                    == is_digit(grown[0]) by {
                    if j < before.last().len() {
                        assert(grown[j] == before.last()[j]);
                    }
                }
            }
            assert forall|i: int| 0 <= i < r.len() implies is_run(#[trigger] r[i]) by {
                if i < r.len() - 1 {
                    assert(r[i] == before[i]);
                }
            }
            assert forall|i: int| 0 <= i < r.len() - 1 implies is_digit(#[trigger] r[i][0])
                != is_digit(r[i + 1][0]) by {
                assert(r[i] == before[i]);
                assert(r[i + 1][0] == before[i + 1][0]);
            }
        } else {
            assert(r.drop_last() =~= before);
            assert(r.flatten_alt() =~= s);
            assert(is_run(seq![c]));
            assert forall|i: int| 0 <= i < r.len() implies is_run(#[trigger] r[i]) by {
                if i < r.len() - 1 {
                    assert(r[i] == before[i]);
                }
            }
            assert forall|i: int| 0 <= i < r.len() - 1 implies is_digit(#[trigger] r[i][0])
                != is_digit(r[i + 1][0]) by {
                assert(r[i] == before[i]);
                if i + 1 < r.len() - 1 {
                    assert(r[i + 1] == before[i + 1]);
                } else {
                    lemma_last_run(init);
                }
            }
        }
    }
}

/// Parts that are not empty and give the empty name when laid end to end
/// are no parts at all.
proof fn lemma_no_parts_of_nothing(parts: Seq<Seq<char>>)
    requires
        parts.flatten().len() == 0,
        forall|i: int| 0 <= i < parts.len() ==> (#[trigger] parts[i]).len() > 0,
    ensures
        parts.len() == 0,
{
    if parts.len() > 0 {
        parts.lemma_flatten_and_flatten_alt_are_equivalent();
        assert(parts.last().len() > 0);
        assert(parts.flatten_alt() == parts.drop_last().flatten_alt() + parts.last());
    }
}

/// A name can be cut into runs in one way only: whatever cuts it so is
/// `runs`.
pub proof fn lemma_runs_unique(s: Seq<char>, parts: Seq<Seq<char>>)
    requires
        parts.flatten() == s,
        is_run_partition(parts),
    ensures
        parts == runs(s),
    decreases s.len(),
{
    parts.lemma_flatten_and_flatten_alt_are_equivalent();
    if s.len() == 0 {
        lemma_no_parts_of_nothing(parts);
        assert(parts =~= runs(s));
    } else {
        assert(parts.len() > 0);
        let last = parts.last();
        let head = parts.drop_last();
        let c = s.last();
        assert(is_run(last));
        assert(parts.flatten_alt() == head.flatten_alt() + last);
        assert(c == last.last());
        head.lemma_flatten_and_flatten_alt_are_equivalent();
        assert forall|i: int| 0 <= i < head.len() implies is_run(#[trigger] head[i]) by {
            assert(head[i] == parts[i]);
        }
        assert forall|i: int| 0 <= i < head.len() - 1 implies is_digit(#[trigger] head[i][0])
            != is_digit(head[i + 1][0]) by {
            assert(head[i] == parts[i] && head[i + 1] == parts[i + 1]);
        }
        if last.len() >= 2 {
            let shorter = last.drop_last();
            let fewer = head.push(shorter);
            fewer.lemma_flatten_and_flatten_alt_are_equivalent();
            assert(fewer.drop_last() =~= head);
            assert(fewer.flatten_alt() =~= s.drop_last());
            assert(is_run(shorter)) by {
                assert forall|j: int| 0 <= j < shorter.len() implies is_digit(
                    #[trigger] shorter[j],
                ) == is_digit(shorter[0]) by {
                    assert(shorter[j] == last[j]);
                    assert(shorter[0] == last[0]);
                }
            }
            assert forall|i: int| 0 <= i < fewer.len() implies is_run(#[trigger] fewer[i]) by {
                if i < head.len() {
                    assert(fewer[i] == parts[i]);
                }
            }
            assert forall|i: int| 0 <= i < fewer.len() - 1 implies is_digit(#[trigger] fewer[i][0])
                != is_digit(fewer[i + 1][0]) by {
                assert(fewer[i] == parts[i]);
                assert(fewer[i + 1][0] == parts[i + 1][0]);
            }
            lemma_runs_unique(s.drop_last(), fewer);
            assert(s[s.len() - 2] == last[last.len() - 2]);
            assert(is_digit(last[last.len() - 2]) == is_digit(last[0]));
            assert(is_digit(last[last.len() - 1]) == is_digit(last[0]));
            assert(shorter.push(c) =~= last);
            assert(parts =~= fewer.drop_last().push(fewer.last().push(c)));
        } else {
            assert(last =~= seq![c]);
            assert(head.flatten_alt() =~= s.drop_last());
            lemma_runs_unique(s.drop_last(), head);
            if s.len() >= 2 {
                lemma_last_run(s.drop_last());
                assert(head.len() > 0);
                let i = head.len() - 1;
                assert(is_digit(parts[i][0]) != is_digit(parts[i + 1][0]));
                assert(head.last() == parts[i]);
            }
            assert(parts =~= head.push(seq![c]));
        }
    }
}

/// What the scan holds after the characters `seen`: the closed pieces, the
/// run that is still open, and its kind.
spec fn scanned(
    seen: Seq<char>,
    pieces: Seq<Seq<char>>,
    current: Seq<char>,
    in_digits: bool,
) -> bool {
    if seen.len() == 0 {
        pieces.len() == 0 && current.len() == 0 && !in_digits
    } else {
        &&& runs(seen).len() > 0
        &&& current == runs(seen).last()
        &&& current.len() > 0
        &&& in_digits == is_digit(seen.last())
        &&& in_digits == is_digit(current[0])
        &&& pieces == all_stored(runs(seen).drop_last())
    }
}

/// Pads a digit run on the left with zeros to `PAD_WIDTH` characters.
fn pad_left(run: Vec<char>) -> (padded: Vec<char>)
    ensures
        padded@ == pad(run@),
{
    if run.len() >= PAD_WIDTH {
        return run;
    }
    let missing: usize = PAD_WIDTH - run.len();
    let mut padded: Vec<char> = Vec::new();
    let mut i: usize = 0;
    while i < missing
        invariant
            i <= missing,
            padded@ == zeros(i as nat),
        decreases missing - i,
    {
        padded.push('0');
        i = i + 1;
        assert(padded@ =~= zeros(i as nat));
    }
    let mut run = run;
    padded.append(&mut run);
    padded
}

/// Cuts `input` into its runs and pads the digit runs.
pub fn split_and_pad(input: &str) -> (key: SortKey)
    ensures
        key@ == sort_key(input@),
{
    let mut pieces: Vec<Vec<char>> = Vec::new();
    let mut current: Vec<char> = Vec::new();
    let mut in_digits = false;
    for c in it: input.chars()
        invariant
            it.seq() == input@,
            scanned(input@.take(it.index() as int), texts(pieces@), current@, in_digits),
    {
        let ghost seen = input@.take(it.index() as int);
        let ghost next = input@.take(it.index() + 1);
        let ghost old_pieces = texts(pieces@);
        let ghost old_current = current@;
        proof {
            assert(next.drop_last() =~= seen);
            assert(next.last() == c);
            if seen.len() > 0 {
                assert(next[next.len() - 2] == seen.last());
            }
        }
        if char_is_digit(c) != in_digits {
            if current.len() > 0 {
                if in_digits {
                    current = pad_left(current);
                }
                pieces.push(current);
                current = Vec::new();
                proof {
                    assert(texts(pieces@) =~= old_pieces.push(stored(old_current)));
                    assert(runs(next) == runs(seen).push(seq![c]));
                    assert(runs(next).drop_last() =~= runs(seen));
                    assert(runs(seen) =~= runs(seen).drop_last().push(runs(seen).last()));
                    assert(all_stored(runs(next).drop_last()) =~= old_pieces.push(
                        stored(old_current),
                    ));
                }
            } else {
                proof {
                    assert(runs(next) =~= seq![seq![c]]);
                    assert(all_stored(runs(next).drop_last()) =~= old_pieces);
                }
            }
            in_digits = !in_digits;
            current.push(c);
            assert(current@ =~= seq![c]);
        } else {
            current.push(c);
            proof {
                if seen.len() == 0 {
                    assert(runs(next) =~= seq![seq![c]]);
                    assert(current@ =~= seq![c]);
                    assert(all_stored(runs(next).drop_last()) =~= old_pieces);
                } else {
                    assert(runs(next).drop_last() =~= runs(seen).drop_last());
                }
            }
        }
    }
    proof {
        assert(input@.take(input@.len() as int) =~= input@);
    }
    let ghost closed = texts(pieces@);
    let ghost last = current@;
    if current.len() > 0 {
        if in_digits {
            current = pad_left(current);
        }
        pieces.push(current);
        proof {
            let r = runs(input@);
            assert(texts(pieces@) =~= closed.push(stored(last)));
            assert(r =~= r.drop_last().push(r.last()));
            assert(all_stored(r) =~= all_stored(r.drop_last()).push(stored(r.last())));
        }
    }
    SortKey { segments: pieces }
}

} // verus!
