//! Choosing the plot files to join and the order to join them in.

use vstd::prelude::*;
use crate::names::{parse_plot_name, plot_name_reading, PlotName};
use crate::text::{decimal, push_decimal};

verus! {

/// What the joiner does with a file of the plot directory.
#[derive(Debug, PartialEq, Eq, Structural)]
pub enum FileChoice {
    /// The name is not that of an optimized plot file.
    Ignore,
    /// A plot file of another address, length or size.
    Skip,
    /// A plot file to join, for nonces `start .. end`.
    Take { start: usize, end: usize },
    /// A plot file of the address whose numbers cannot be used: a number beyond
    /// `usize`, an end before the start, or a byte size of `length` plots beyond `usize`.
    Unusable,
}

/// The choice for a file named `name` of `size` bytes, when joining files of
/// `length` plots of `address`.
pub open spec fn file_choice(name: Seq<char>, size: u64, address: Seq<char>, length: usize) -> FileChoice {
    match plot_name_reading(name) {
        None => FileChoice::Ignore,
        Some((a, start, end)) => if a != address {
            FileChoice::Skip
        } else if start > usize::MAX || end > usize::MAX || end < start {
            FileChoice::Unusable
        } else if end - start != length {
            FileChoice::Skip
        } else if length * 524288 > usize::MAX {
            FileChoice::Unusable
        } else if length * 524288 != size {
            FileChoice::Skip
        } else {
            FileChoice::Take { start: start as usize, end: end as usize }
        },
    }
}

/// Decides what to do with a file named `name` of `size` bytes when joining
/// files of `length` plots of `address`.
pub fn choose_plot_file(name: &str, size: u64, address: &str, length: usize) -> (choice: FileChoice)
    ensures
        choice == file_choice(name@, size, address@, length),
{
    let wanted = address.to_string();
    proof {
        vstd::string::to_string_from_display_ensures_for_str(address, wanted);
    }
    match parse_plot_name(name) {
        PlotName::NotPlot => FileChoice::Ignore,
        PlotName::TooLarge { address: found } => {
            if found == wanted {
                FileChoice::Unusable
            } else {
                FileChoice::Skip
            }
        },
        PlotName::Plot { address: found, start, end } => {
            if found != wanted {
                FileChoice::Skip
            } else if end < start {
                FileChoice::Unusable
            } else if end - start != length {
                FileChoice::Skip
            } else {
                match length.checked_mul(524288) {
                    None => FileChoice::Unusable,
                    Some(estimate) => {
                        if estimate as u64 != size {
                            FileChoice::Skip
                        } else {
                            FileChoice::Take { start, end }
                        }
                    },
                }
            }
        },
    }
}

/// A directory entry as the specification sees it: its name and its size.
pub open spec fn entries_view(entries: Seq<(String, u64)>) -> Seq<(Seq<char>, u64)> {
    entries.map_values(|e: (String, u64)| (e.0@, e.1))
}

/// The (start, end) ranges of the entries the joiner takes, in entry order.
pub open spec fn kept_ranges(entries: Seq<(Seq<char>, u64)>, address: Seq<char>, length: usize) -> Seq<
    (usize, usize),
>
    decreases entries.len(),
{
    if entries.len() == 0 {
        seq![]
    } else {
        let rest = kept_ranges(entries.drop_last(), address, length);
        match file_choice(entries.last().0, entries.last().1, address, length) {
            FileChoice::Take { start, end } => rest.push((start, end)),
            _ => rest,
        }
    }
}

/// What going through the entries in order gives: the first entry whose numbers
/// cannot be used, or else the ranges of the entries taken.
pub open spec fn kept_outcome(entries: Seq<(Seq<char>, u64)>, address: Seq<char>, length: usize) -> Result<
    Seq<(usize, usize)>,
    (Seq<char>, u64),
>
    decreases entries.len(),
{
    if entries.len() == 0 {
        Ok(seq![])
    } else {
        match kept_outcome(entries.drop_last(), address, length) {
            Err(bad) => Err(bad),
            Ok(rest) => match file_choice(entries.last().0, entries.last().1, address, length) {
                FileChoice::Take { start, end } => Ok(rest.push((start, end))),
                FileChoice::Unusable => Err(entries.last()),
                _ => Ok(rest),
            },
        }
    }
}

/// The (start, end) parts of the kept files.
pub open spec fn ranges_of(kept: Seq<(usize, usize, usize)>) -> Seq<(usize, usize)> {
    kept.map_values(|k: (usize, usize, usize)| (k.1, k.2))
}

/// Goes through the entries of the plot directory (name and size) in order:
/// the files to join with their entry index and nonce range, or the index of
/// the first entry whose numbers cannot be used.
pub fn kept_plot_files(entries: &Vec<(String, u64)>, address: &str, length: usize) -> (r: Result<
    Vec<(usize, usize, usize)>,
    usize,
>)
    ensures
        match r {
            Ok(kept) => kept_outcome(entries_view(entries@), address@, length) == Ok::<
                Seq<(usize, usize)>,
                (Seq<char>, u64),
            >(ranges_of(kept@)),
            Err(i) => i < entries@.len() && kept_outcome(entries_view(entries@), address@, length) == Err::<
                Seq<(usize, usize)>,
                (Seq<char>, u64),
            >(entries_view(entries@)[i as int]),
        },
        match r {
            Ok(kept) => {
                &&& ranges_of(kept@) == kept_ranges(entries_view(entries@), address@, length)
                &&& forall|j1: int, j2: int|
                    0 <= j1 < j2 < kept@.len() ==> #[trigger] kept@[j1].0 < #[trigger] kept@[j2].0
                &&& forall|i: int|
                    0 <= i < entries@.len() ==> {
                        let c = file_choice(
                            #[trigger] entries_view(entries@)[i].0,
                            entries_view(entries@)[i].1,
                            address@,
                            length,
                        );
                        c is Take ==> kept@.contains((i as usize, c->start, c->end))
                    }
                &&& forall|i: int|
                    0 <= i < entries@.len() ==> file_choice(
                        #[trigger] entries_view(entries@)[i].0,
                        entries_view(entries@)[i].1,
                        address@,
                        length,
                    ) != FileChoice::Unusable
                &&& forall|j: int|
                    0 <= j < kept@.len() ==> #[trigger] kept@[j].0 < entries@.len() && file_choice(
                        entries_view(entries@)[kept@[j].0 as int].0,
                        entries_view(entries@)[kept@[j].0 as int].1,
                        address@,
                        length,
                    ) == (FileChoice::Take { start: kept@[j].1, end: kept@[j].2 })
            },
            Err(i) => {
                &&& i < entries@.len()
                &&& file_choice(entries_view(entries@)[i as int].0, entries_view(entries@)[i as int].1, address@, length)
                    == FileChoice::Unusable
                &&& forall|j: int|
                    0 <= j < i ==> file_choice(
                        #[trigger] entries_view(entries@)[j].0,
                        entries_view(entries@)[j].1,
                        address@,
                        length,
                    ) != FileChoice::Unusable
            },
        },
{
    let ghost view = entries_view(entries@);
    let mut kept: Vec<(usize, usize, usize)> = Vec::new();
    let mut i: usize = 0;
    while i < entries.len()
        invariant
            view == entries_view(entries@),
            i <= entries@.len(),
            ranges_of(kept@) == kept_ranges(view.take(i as int), address@, length),
            kept_outcome(view.take(i as int), address@, length) == Ok::<
                Seq<(usize, usize)>,
                (Seq<char>, u64),
            >(ranges_of(kept@)),
            forall|j1: int, j2: int|
                0 <= j1 < j2 < kept@.len() ==> #[trigger] kept@[j1].0 < #[trigger] kept@[j2].0,
            forall|j: int|
                0 <= j < i ==> {
                    let c = file_choice(#[trigger] view[j].0, view[j].1, address@, length);
                    c is Take ==> kept@.contains((j as usize, c->start, c->end))
                },
            forall|j: int|
                0 <= j < i ==> file_choice(#[trigger] view[j].0, view[j].1, address@, length)
                    != FileChoice::Unusable,
            forall|j: int|
                0 <= j < kept@.len() ==> #[trigger] kept@[j].0 < i && file_choice(
                    view[kept@[j].0 as int].0,
                    view[kept@[j].0 as int].1,
                    address@,
                    length,
                ) == (FileChoice::Take { start: kept@[j].1, end: kept@[j].2 }),
        decreases entries@.len() - i,
    {
        let choice = choose_plot_file(entries[i].0.as_str(), entries[i].1, address, length);
        assert(view.take(i + 1).drop_last() =~= view.take(i as int));
        assert(view.take(i + 1).last() == view[i as int]);
        match choice {
            FileChoice::Take { start, end } => {
                let ghost before = kept@;
                kept.push((i, start, end));
                assert(ranges_of(kept@) =~= ranges_of(before).push((start, end)));
                assert(kept@[before.len() as int] == (i, start, end));
                assert forall|j: int|
                    0 <= j < i + 1 && (file_choice(#[trigger] view[j].0, view[j].1, address@, length) is Take)
                        implies kept@.contains(
                        (
                            j as usize,
                            file_choice(view[j].0, view[j].1, address@, length)->start,
                            file_choice(view[j].0, view[j].1, address@, length)->end,
                        ),
                    ) by {
                    let c = file_choice(view[j].0, view[j].1, address@, length);
                    if j < i {
                        let w = choose|w: int| 0 <= w < before.len() && before[w] == (j as usize, c->start, c->end);
                        assert(kept@[w] == before[w]);
                    }
                }
            },
            FileChoice::Unusable => {
                proof {
                    lemma_kept_outcome_prefix_err(view, i + 1, address@, length);
                }
                return Err(i);
            },
            _ => {},
        }
        i = i + 1;
    }
    assert(view.take(entries@.len() as int) =~= view);
    Ok(kept)
}

/// Every entry the joiner takes has its range among the kept ranges, in entry
/// order: a taken entry added after the others puts its range after theirs.
pub proof fn lemma_kept_ranges_complete(entries: Seq<(Seq<char>, u64)>, address: Seq<char>, length: usize)
    ensures
        forall|i: int|
            0 <= i < entries.len() ==> {
                let c = file_choice(#[trigger] entries[i].0, entries[i].1, address, length);
                c is Take ==> kept_ranges(entries, address, length).contains((c->start, c->end))
            },
        forall|entry: (Seq<char>, u64)|
            {
                let c = file_choice(entry.0, entry.1, address, length);
                c is Take ==> #[trigger] kept_ranges(entries.push(entry), address, length) == kept_ranges(
                    entries,
                    address,
                    length,
                ).push((c->start, c->end))
            },
        kept_ranges(entries, address, length).len() <= entries.len(),
    decreases entries.len(),
{
    assert forall|entry: (Seq<char>, u64)|
        (file_choice(entry.0, entry.1, address, length) is Take) implies #[trigger] kept_ranges(
            entries.push(entry),
            address,
            length,
        ) == kept_ranges(entries, address, length).push(
            (
                file_choice(entry.0, entry.1, address, length)->start,
                file_choice(entry.0, entry.1, address, length)->end,
            ),
        ) by {
        assert(entries.push(entry).drop_last() =~= entries);
    }
    if entries.len() > 0 {
        let rest = entries.drop_last();
        lemma_kept_ranges_complete(rest, address, length);
        let before = kept_ranges(rest, address, length);
        let now = kept_ranges(entries, address, length);
        assert forall|i: int|
            0 <= i < entries.len() && (file_choice(#[trigger] entries[i].0, entries[i].1, address, length) is Take)
                implies now.contains(
                (
                    file_choice(entries[i].0, entries[i].1, address, length)->start,
                    file_choice(entries[i].0, entries[i].1, address, length)->end,
                ),
            ) by {
            let c = file_choice(entries[i].0, entries[i].1, address, length);
            let s = c->start;
            let e = c->end;
            if i < entries.len() - 1 {
                assert(rest[i] == entries[i]);
                let w = choose|w: int| 0 <= w < before.len() && before[w] == (s, e);
                match file_choice(entries.last().0, entries.last().1, address, length) {
                    FileChoice::Take { start, end } => {
                        assert(now[w] == before[w]);
                    },
                    _ => {},
                }
            } else {
                assert(now == before.push((s, e)));
                assert(now[before.len() as int] == (s, e));
            }
        }
    }
}

/// Once an entry cannot be used, the entries after it change nothing.
proof fn lemma_kept_outcome_prefix_err(
    entries: Seq<(Seq<char>, u64)>,
    n: int,
    address: Seq<char>,
    length: usize,
)
    requires
        0 <= n <= entries.len(),
        kept_outcome(entries.take(n), address, length) is Err,
    ensures
        kept_outcome(entries, address, length) == kept_outcome(entries.take(n), address, length),
    decreases entries.len(),
{
    if entries.len() > n {
        assert(entries.drop_last().take(n) =~= entries.take(n));
        lemma_kept_outcome_prefix_err(entries.drop_last(), n, address, length);
    } else {
        assert(entries.take(n) =~= entries);
    }
}

/// Entries the joiner does not take change nothing: putting an ignored or
/// skipped entry anywhere among the others leaves the whole outcome of going
/// through the entries (the first unusable entry, or the kept ranges) as it was.
pub proof fn lemma_kept_outcome_insert(
    entries: Seq<(Seq<char>, u64)>,
    p: int,
    entry: (Seq<char>, u64),
    address: Seq<char>,
    length: usize,
)
    requires
        0 <= p <= entries.len(),
        file_choice(entry.0, entry.1, address, length) is Ignore || file_choice(
            entry.0,
            entry.1,
            address,
            length,
        ) is Skip,
    ensures
        kept_outcome(entries.insert(p, entry), address, length) == kept_outcome(entries, address, length),
    decreases entries.len(),
{
    let bigger = entries.insert(p, entry);
    if p == entries.len() {
        assert(bigger.drop_last() =~= entries);
    } else {
        assert(bigger.drop_last() =~= entries.drop_last().insert(p, entry));
        assert(bigger.last() == entries.last());
        lemma_kept_outcome_insert(entries.drop_last(), p, entry, address, length);
    }
}

/// Entries the joiner does not take change nothing: putting an ignored or
/// skipped entry anywhere among the others leaves the kept ranges as they were.
pub proof fn lemma_kept_ranges_insert(
    entries: Seq<(Seq<char>, u64)>,
    p: int,
    entry: (Seq<char>, u64),
    address: Seq<char>,
    length: usize,
)
    requires
        0 <= p <= entries.len(),
        file_choice(entry.0, entry.1, address, length) is Ignore || file_choice(
            entry.0,
            entry.1,
            address,
            length,
        ) is Skip,
    ensures
        kept_ranges(entries.insert(p, entry), address, length) == kept_ranges(entries, address, length),
    decreases entries.len(),
{
    let bigger = entries.insert(p, entry);
    if p == entries.len() {
        assert(bigger.drop_last() =~= entries);
    } else {
        assert(bigger.drop_last() =~= entries.drop_last().insert(p, entry));
        assert(bigger.last() == entries.last());
        lemma_kept_ranges_insert(entries.drop_last(), p, entry, address, length);
    }
}

/// Where the chain stands after the files `order[0 .. i]`: at `start`, then at
/// the end of the last file taken.
pub open spec fn chain_cursor(files: Seq<(usize, usize)>, start: usize, order: Seq<usize>, i: int) -> usize {
    if i == 0 {
        start
    } else {
        files[order[i - 1] as int].1
    }
}

/// `order` is how the joiner takes files one at a time: each time the first
/// file not taken yet whose start is where the chain stands.
pub open spec fn is_join_prefix(files: Seq<(usize, usize)>, start: usize, order: Seq<usize>) -> bool {
    &&& order.len() <= files.len()
    &&& forall|i: int| 0 <= i < order.len() ==> #[trigger] order[i] < files.len()
    &&& forall|i: int, j: int| 0 <= i < j < order.len() ==> order[i] != order[j]
    &&& forall|i: int|
        0 <= i < order.len() ==> #[trigger] files[order[i] as int].0 == chain_cursor(
            files,
            start,
            order,
            i,
        )
    &&& forall|i: int, k: int|
        #![trigger order[i], files[k]]
        0 <= i < order.len() && 0 <= k < order[i] && !order.take(i).contains(k as usize)
            ==> files[k].0 != chain_cursor(files, start, order, i)
}

/// After `order`, no file left starts where the chain stands.
pub open spec fn is_stuck(files: Seq<(usize, usize)>, start: usize, order: Seq<usize>) -> bool {
    forall|k: int|
        0 <= k < files.len() && !order.contains(k as usize) ==> #[trigger] files[k].0 != chain_cursor(
            files,
            start,
            order,
            order.len() as int,
        )
}

/// Orders the files (given as (start, end) nonce ranges) into a chain from
/// `start`: each next file starts where the previous one ends. Returns the
/// indices in join order, or the message that names how many files could not
/// be chained.
pub fn join_order(files: &Vec<(usize, usize)>, start: usize) -> (r: Result<Vec<usize>, String>)
    ensures
        match r {
            Ok(order) => order@.len() == files@.len() && is_join_prefix(files@, start, order@),
            Err(message) => exists|order: Seq<usize>|
                #![trigger is_stuck(files@, start, order)]
                {
                    &&& is_join_prefix(files@, start, order)
                    &&& order.len() < files@.len()
                    &&& is_stuck(files@, start, order)
                    &&& message@ == "there is "@ + decimal((files@.len() - order.len()) as nat)
                        + " unrelated files"@
                },
        },
{
    let n = files.len();
    let mut taken: Vec<bool> = vec![false; n];
    let mut order: Vec<usize> = Vec::new();
    let mut cursor = start;
    while order.len() < n
        invariant
            n == files@.len(),
            taken@.len() == n,
            is_join_prefix(files@, start, order@),
            cursor == chain_cursor(files@, start, order@, order@.len() as int),
            forall|k: int| 0 <= k < n ==> (#[trigger] taken@[k] <==> order@.contains(k as usize)),
        decreases n - order@.len(),
    {
        let mut k: usize = 0;
        let mut found = false;
        while k < n
            invariant_except_break
                !found,
            invariant
                n == files@.len(),
                taken@.len() == n,
                k <= n,
                forall|j: int| 0 <= j < k ==> taken@[j] || #[trigger] files@[j].0 != cursor,
            ensures
                found ==> k < n && !taken@[k as int] && files@[k as int].0 == cursor,
                !found ==> forall|j: int| 0 <= j < n ==> taken@[j] || #[trigger] files@[j].0 != cursor,
                forall|j: int| 0 <= j < k ==> taken@[j] || #[trigger] files@[j].0 != cursor,
            decreases n - k,
        {
            if !taken[k] && files[k].0 == cursor {
                found = true;
                break;
            }
            k = k + 1;
        }
        if !found {
            let mut message = "there is ".to_string();
            proof {
                vstd::string::to_string_from_display_ensures_for_str("there is ", message);
            }
            push_decimal(&mut message, (n - order.len()) as u64);
            message.append(" unrelated files");
            assert(is_stuck(files@, start, order@));
            return Err(message);
        }
        let ghost before = order@;
        order.push(k);
        taken.set(k, true);
        cursor = files[k].1;
        proof {
            let now = order@;
            assert(!before.contains(k));
            assert forall|i: int| 0 <= i <= before.len() implies now.take(i) == before.take(i) by {
                assert(now.take(i) =~= before.take(i));
            }
            assert forall|i: int| 0 <= i <= before.len() implies #[trigger] chain_cursor(files@, start, now, i)
                == chain_cursor(files@, start, before, i) by {}
            assert forall|j: int| 0 <= j < n implies (#[trigger] taken@[j] <==> now.contains(j as usize)) by {
                if j == k {
                    assert(now[before.len() as int] == k);
                } else {
                    if now.contains(j as usize) {
                        let w = choose|w: int| 0 <= w < now.len() && now[w] == j as usize;
                        assert(w < before.len());
                        assert(before[w] == j as usize);
                    }
                    if before.contains(j as usize) {
                        let w = choose|w: int| 0 <= w < before.len() && before[w] == j as usize;
                        assert(now[w] == j as usize);
                    }
                }
            }
            assert(now.take(before.len() as int) =~= before);
        }
    }
    Ok(order)
}

/// A way of taking files cut short is still one.
pub proof fn lemma_join_prefix_take(files: Seq<(usize, usize)>, start: usize, order: Seq<usize>, m: int)
    requires
        is_join_prefix(files, start, order),
        0 <= m <= order.len(),
    ensures
        is_join_prefix(files, start, order.take(m)),
        forall|i: int| 0 <= i <= m ==> #[trigger] chain_cursor(files, start, order.take(m), i)
            == chain_cursor(files, start, order, i),
{
    let p = order.take(m);
    assert forall|i: int| 0 <= i <= m implies #[trigger] p.take(i) == order.take(i) by {
        assert(p.take(i) =~= order.take(i));
    }
    assert forall|i: int| 0 <= i <= m implies #[trigger] chain_cursor(files, start, p, i)
        == chain_cursor(files, start, order, i) by {}
}

/// The join order is determined: of two ways of taking files as the joiner
/// does, the shorter is the start of the longer.
pub proof fn lemma_join_prefix_unique(
    files: Seq<(usize, usize)>,
    start: usize,
    o1: Seq<usize>,
    o2: Seq<usize>,
)
    requires
        is_join_prefix(files, start, o1),
        is_join_prefix(files, start, o2),
        o1.len() <= o2.len(),
    ensures
        o1 == o2.take(o1.len() as int),
    decreases o1.len(),
{
    if o1.len() == 0 {
        assert(o1 =~= o2.take(0));
    } else {
        let m = o1.len() - 1;
        lemma_join_prefix_take(files, start, o1, m as int);
        lemma_join_prefix_take(files, start, o2, m as int);
        lemma_join_prefix_unique(files, start, o1.take(m as int), o2.take(m as int));
        assert(o2.take(m as int).take(m as int) =~= o2.take(m as int));
        lemma_next_taken(files, start, o1, o2, m as int);
        assert(o1 =~= o2.take(o1.len() as int));
    }
}

/// Two ways of taking files that agree on the first `m` files agree on the next.
proof fn lemma_next_taken(files: Seq<(usize, usize)>, start: usize, o1: Seq<usize>, o2: Seq<usize>, m: int)
    requires
        is_join_prefix(files, start, o1),
        is_join_prefix(files, start, o2),
        0 <= m < o1.len(),
        m < o2.len(),
        o1.take(m) == o2.take(m),
    ensures
        o1[m] == o2[m],
{
    let shared = o1.take(m);
    assert(chain_cursor(files, start, o1, m) == chain_cursor(files, start, o2, m)) by {
        if m > 0 {
            assert(o1[m - 1] == shared[m - 1]);
            assert(o2[m - 1] == o2.take(m)[m - 1]);
        }
    }
    let a = o1[m];
    let b = o2[m];
    if a < b {
        assert(!o2.take(m).contains(a)) by {
            if o2.take(m).contains(a) {
                let w = choose|w: int| 0 <= w < m && o2.take(m)[w] == a;
                assert(o1[w] == shared[w]);
            }
        }
        assert(files[a as int].0 == chain_cursor(files, start, o1, m));
        assert(o2[m] == b && files[a as int].0 != chain_cursor(files, start, o2, m));
    } else if b < a {
        assert(!o1.take(m).contains(b)) by {
            if o1.take(m).contains(b) {
                let w = choose|w: int| 0 <= w < m && o1.take(m)[w] == b;
                assert(o2[w] == o2.take(m)[w]);
            }
        }
        assert(files[b as int].0 == chain_cursor(files, start, o2, m));
        assert(o1[m] == a && files[b as int].0 != chain_cursor(files, start, o1, m));
    }
}

/// The joiner cannot both chain every file and get stuck: a full join order
/// and a stuck way of taking files never exist together.
pub proof fn lemma_join_outcome_exclusive(
    files: Seq<(usize, usize)>,
    start: usize,
    full: Seq<usize>,
    stuck: Seq<usize>,
)
    requires
        is_join_prefix(files, start, full),
        full.len() == files.len(),
        is_join_prefix(files, start, stuck),
        stuck.len() < files.len(),
    ensures
        !is_stuck(files, start, stuck),
{
    lemma_join_prefix_unique(files, start, stuck, full);
    let m = stuck.len() as int;
    let k = full[m];
    lemma_join_prefix_take(files, start, full, m);
    assert(chain_cursor(files, start, stuck, m) == chain_cursor(files, start, full, m));
    assert(files[k as int].0 == chain_cursor(files, start, full, m));
    assert(!stuck.contains(k)) by {
        if stuck.contains(k) {
            let w = choose|w: int| 0 <= w < m && stuck[w] == k;
            assert(full[w] == stuck[w]);
        }
    }
}

/// When every file holds `length` plots, the files in join order cover
/// `start .. start + order.len() * length` one after another.
pub proof fn lemma_join_order_ranges(files: Seq<(usize, usize)>, start: usize, order: Seq<usize>, length: nat)
    requires
        is_join_prefix(files, start, order),
        forall|k: int| 0 <= k < files.len() ==> #[trigger] files[k].1 == files[k].0 + length,
    ensures
        forall|i: int|
            0 <= i < order.len() ==> #[trigger] files[order[i] as int].0 == start + i * length,
    decreases order.len(),
{
    if order.len() > 0 {
        let m = order.len() - 1;
        let p = order.take(m);
        lemma_join_prefix_take(files, start, order, m as int);
        lemma_join_order_ranges(files, start, p, length);
        assert forall|i: int| 0 <= i < order.len() implies #[trigger] files[order[i] as int].0 == start + i
            * length by {
            if i < m {
                assert(p[i] == order[i]);
            } else if i > 0 {
                assert(p[i - 1] == order[i - 1]);
                assert(files[order[i - 1] as int].0 == start + (i - 1) * length);
                assert(start + (i - 1) * length + length == start + i * length) by (nonlinear_arith);
            }
        }
    }
}

} // verus!
