//! The textual input format: non-empty lines of whitespace-separated tokens.
use vstd::prelude::*;

use crate::knapsack::{KnapsackInput, KnapsackInputError, KnapsackItem};

verus! {

pub open spec fn is_space(c: u8) -> bool {
    c == 32 || c == 9 || c == 10 || c == 11 || c == 12 || c == 13
}

pub open spec fn all_digits(s: Seq<u8>) -> bool {
    forall|k: int| 0 <= k < s.len() ==> 48 <= #[trigger] s[k] <= 57
}

/// The value of a string of decimal digits.
pub open spec fn dec_value(s: Seq<u8>) -> nat
    decreases s.len(),
{
    if s.len() == 0 {
        0
    } else {
        dec_value(s.drop_last()) * 10 + (s.last() - 48) as nat
    }
}

/// A token that reads as a `u64`.
pub open spec fn is_number(s: Seq<u8>) -> bool {
    s.len() > 0 && all_digits(s) && dec_value(s) <= u64::MAX
}

pub open spec fn end_token(line: Seq<Seq<u8>>, tok: Seq<u8>) -> Seq<Seq<u8>> {
    if tok.len() > 0 {
        line.push(tok)
    } else {
        line
    }
}

pub open spec fn end_line(lines: Seq<Seq<Seq<u8>>>, line: Seq<Seq<u8>>) -> Seq<Seq<Seq<u8>>> {
    if line.len() > 0 {
        lines.push(line)
    } else {
        lines
    }
}

/// Reading one byte: a newline ends the token and the line, other whitespace
/// ends the token, anything else extends the token.
pub open spec fn scan_step(
    st: (Seq<Seq<Seq<u8>>>, Seq<Seq<u8>>, Seq<u8>),
    c: u8,
) -> (Seq<Seq<Seq<u8>>>, Seq<Seq<u8>>, Seq<u8>) {
    if c == 10 {
        (end_line(st.0, end_token(st.1, st.2)), Seq::empty(), Seq::empty())
    } else if is_space(c) {
        (st.0, end_token(st.1, st.2), Seq::empty())
    } else {
        (st.0, st.1, st.2.push(c))
    }
}

/// Reading `text` byte by byte from state `st`.
pub open spec fn scan_from(
    st: (Seq<Seq<Seq<u8>>>, Seq<Seq<u8>>, Seq<u8>),
    text: Seq<u8>,
) -> (Seq<Seq<Seq<u8>>>, Seq<Seq<u8>>, Seq<u8>)
    decreases text.len(),
{
    if text.len() == 0 {
        st
    } else {
        scan_step(scan_from(st, text.drop_last()), text.last())
    }
}

/// Reading `text` byte by byte: the finished non-empty lines, the tokens of the
/// current line, and the current token.
pub open spec fn scan(text: Seq<u8>) -> (Seq<Seq<Seq<u8>>>, Seq<Seq<u8>>, Seq<u8>) {
    scan_from((Seq::empty(), Seq::empty(), Seq::empty()), text)
}

/// The lines of `text` that hold a token, each as its list of tokens.
pub open spec fn text_lines(text: Seq<u8>) -> Seq<Seq<Seq<u8>>> {
    let st = scan(text);
    end_line(st.0, end_token(st.1, st.2))
}

/// What is wrong with an item line, if anything.
pub open spec fn item_error(line: Seq<Seq<u8>>) -> Option<KnapsackInputError> {
    if line.len() != 2 {
        Some(KnapsackInputError::InvalidItemSpecification)
    } else if !is_number(line[0]) {
        Some(KnapsackInputError::InvalidItemValue)
    } else if !is_number(line[1]) {
        Some(KnapsackInputError::InvalidItemWeight)
    } else {
        None
    }
}

/// The first error among the first `k` item lines (the lines from index 2 on).
pub open spec fn first_item_error(lines: Seq<Seq<Seq<u8>>>, k: int) -> Option<KnapsackInputError>
    decreases k,
{
    if k <= 0 {
        None
    } else {
        match first_item_error(lines, k - 1) {
            Some(e) => Some(e),
            None => item_error(lines[k + 1]),
        }
    }
}

/// The first `n` items that the item lines describe: profit, then weight.
pub open spec fn items_of(lines: Seq<Seq<Seq<u8>>>, n: int) -> Seq<KnapsackItem> {
    Seq::new(
        n as nat,
        |k: int|
            KnapsackItem {
                weight: dec_value(lines[k + 2][1]) as u64,
                profit: dec_value(lines[k + 2][0]) as u64,
            },
    )
}

pub open spec fn single_number(line: Seq<Seq<u8>>) -> bool {
    line.len() == 1 && is_number(line[0])
}

/// The outcome of parsing `text`: the items and the capacity, or the first error.
pub open spec fn parse_outcome(text: Seq<u8>) -> Result<(Seq<KnapsackItem>, u64), KnapsackInputError> {
    let lines = text_lines(text);
    if lines.len() == 0 {
        Err(KnapsackInputError::MissingItemCount)
    } else if !single_number(lines[0]) {
        Err(KnapsackInputError::InvalidItemCount)
    } else if lines.len() < 2 {
        Err(KnapsackInputError::MissingCapacity)
    } else if !single_number(lines[1]) {
        Err(KnapsackInputError::InvalidCapacity)
    } else {
        let n = dec_value(lines[0][0]) as int;
        let cap = dec_value(lines[1][0]) as u64;
        let avail = if n < lines.len() - 2 {
            n
        } else {
            lines.len() - 2
        };
        match first_item_error(lines, avail) {
            Some(e) => Err(e),
            None => if lines.len() - 2 < n {
                Err(KnapsackInputError::InsufficientItems)
            } else if cap == 0 {
                Err(KnapsackInputError::InvalidCapacity)
            } else {
                Ok((items_of(lines, n), cap))
            },
        }
    }
}

/// The decimal digits of `x`, most significant first.
pub open spec fn digits(x: nat) -> Seq<u8>
    decreases x,
{
    if x < 10 {
        seq![(48 + x) as u8]
    } else {
        digits(x / 10).push((48 + x % 10) as u8)
    }
}

/// One item line: the profit, a space, the weight, a newline.
pub open spec fn item_line(it: KnapsackItem) -> Seq<u8> {
    digits(it.profit as nat) + seq![32u8] + digits(it.weight as nat) + seq![10u8]
}

pub open spec fn items_text(items: Seq<KnapsackItem>, k: int) -> Seq<u8>
    decreases k,
{
    if k <= 0 {
        Seq::empty()
    } else {
        items_text(items, k - 1) + item_line(items[k - 1])
    }
}

/// The text of an input: the item count, the capacity, then one line per item.
pub open spec fn input_text(items: Seq<KnapsackItem>, cap: u64) -> Seq<u8> {
    digits(items.len()) + seq![10u8] + digits(cap as nat) + seq![10u8] + items_text(
        items,
        items.len() as int,
    )
}

/// The token lines of the first `k` item lines.
pub open spec fn item_token_lines(items: Seq<KnapsackItem>, k: int) -> Seq<Seq<Seq<u8>>> {
    Seq::new(
        k as nat,
        |j: int| seq![digits(items[j].profit as nat), digits(items[j].weight as nat)],
    )
}

proof fn lemma_digits(x: nat)
    ensures
        digits(x).len() > 0,
        all_digits(digits(x)),
        dec_value(digits(x)) == x,
    decreases x,
{
    if x < 10 {
        assert(digits(x).drop_last() =~= Seq::<u8>::empty());
        assert(dec_value(Seq::<u8>::empty()) == 0);
        assert(digits(x).last() == 48 + x);
    } else {
        lemma_digits(x / 10);
        assert(digits(x).drop_last() =~= digits(x / 10));
        assert(digits(x).last() == 48 + x % 10);
        vstd::arithmetic::div_mod::lemma_fundamental_div_mod(x as int, 10);
    }
}

proof fn lemma_scan_push(st: (Seq<Seq<Seq<u8>>>, Seq<Seq<u8>>, Seq<u8>), a: Seq<u8>, c: u8)
    ensures
        scan_from(st, a + seq![c]) == scan_step(scan_from(st, a), c),
{
    assert((a + seq![c]).drop_last() =~= a);
}

proof fn lemma_scan_concat(
    st: (Seq<Seq<Seq<u8>>>, Seq<Seq<u8>>, Seq<u8>),
    a: Seq<u8>,
    b: Seq<u8>,
)
    ensures
        scan_from(st, a + b) == scan_from(scan_from(st, a), b),
    decreases b.len(),
{
    if b.len() == 0 {
        assert(a + b =~= a);
    } else {
        assert((a + b).drop_last() =~= a + b.drop_last());
        lemma_scan_concat(st, a, b.drop_last());
    }
}

proof fn lemma_scan_word(st: (Seq<Seq<Seq<u8>>>, Seq<Seq<u8>>, Seq<u8>), w: Seq<u8>)
    requires
        all_digits(w),
    ensures
        scan_from(st, w) == (st.0, st.1, st.2 + w),
    decreases w.len(),
{
    if w.len() == 0 {
        assert(st.2 + w =~= st.2);
    } else {
        assert(all_digits(w.drop_last()));
        lemma_scan_word(st, w.drop_last());
        assert(st.2 + w.drop_last() + seq![w.last()] =~= st.2 + w);
        assert(w.drop_last().push(w.last()) =~= w);
    }
}

proof fn lemma_scan_number_line(lines: Seq<Seq<Seq<u8>>>, x: nat)
    ensures
        scan_from((lines, Seq::empty(), Seq::empty()), digits(x) + seq![10u8]) == (
            lines.push(seq![digits(x)]),
            Seq::<Seq<u8>>::empty(),
            Seq::<u8>::empty(),
        ),
{
    let st = (lines, Seq::<Seq<u8>>::empty(), Seq::<u8>::empty());
    lemma_digits(x);
    lemma_scan_push(st, digits(x), 10u8);
    lemma_scan_word(st, digits(x));
    assert(Seq::<u8>::empty() + digits(x) =~= digits(x));
    assert(Seq::<Seq<u8>>::empty().push(digits(x)) =~= seq![digits(x)]);
}

proof fn lemma_scan_item_line(lines: Seq<Seq<Seq<u8>>>, it: KnapsackItem)
    ensures
        scan_from((lines, Seq::empty(), Seq::empty()), item_line(it)) == (
            lines.push(seq![digits(it.profit as nat), digits(it.weight as nat)]),
            Seq::<Seq<u8>>::empty(),
            Seq::<u8>::empty(),
        ),
{
    let st = (lines, Seq::<Seq<u8>>::empty(), Seq::<u8>::empty());
    let dp = digits(it.profit as nat);
    let dw = digits(it.weight as nat);
    lemma_digits(it.profit as nat);
    lemma_digits(it.weight as nat);
    lemma_scan_push(st, dp + seq![32u8] + dw, 10u8);
    lemma_scan_concat(st, dp + seq![32u8], dw);
    lemma_scan_push(st, dp, 32u8);
    lemma_scan_word(st, dp);
    assert(Seq::<u8>::empty() + dp =~= dp);
    let st2 = (lines, seq![dp], Seq::<u8>::empty());
    assert(Seq::<Seq<u8>>::empty().push(dp) =~= seq![dp]);
    lemma_scan_word(st2, dw);
    assert(Seq::<u8>::empty() + dw =~= dw);
    assert(seq![dp].push(dw) =~= seq![dp, dw]);
}

proof fn lemma_scan_items(lines: Seq<Seq<Seq<u8>>>, items: Seq<KnapsackItem>, k: int)
    requires
        0 <= k <= items.len(),
    ensures
        scan_from((lines, Seq::empty(), Seq::empty()), items_text(items, k)) == (
            lines + item_token_lines(items, k),
            Seq::<Seq<u8>>::empty(),
            Seq::<u8>::empty(),
        ),
    decreases k,
{
    let st = (lines, Seq::<Seq<u8>>::empty(), Seq::<u8>::empty());
    if k == 0 {
        assert(lines + item_token_lines(items, 0) =~= lines);
    } else {
        lemma_scan_items(lines, items, k - 1);
        lemma_scan_concat(st, items_text(items, k - 1), item_line(items[k - 1]));
        lemma_scan_item_line(lines + item_token_lines(items, k - 1), items[k - 1]);
        assert((lines + item_token_lines(items, k - 1)).push(
            seq![digits(items[k - 1].profit as nat), digits(items[k - 1].weight as nat)],
        ) =~= lines + item_token_lines(items, k));
    }
}

proof fn lemma_no_item_error(lines: Seq<Seq<Seq<u8>>>, items: Seq<KnapsackItem>, k: int)
    requires
        0 <= k <= items.len(),
        lines.len() == items.len() + 2,
        forall|j: int| 0 <= j < items.len() ==> lines[j + 2] == item_token_lines(items, items.len() as int)[j],
    ensures
        first_item_error(lines, k) is None,
    decreases k,
{
    if k > 0 {
        lemma_no_item_error(lines, items, k - 1);
        lemma_digits(items[k - 1].profit as nat);
        lemma_digits(items[k - 1].weight as nat);
        assert(lines[k + 1] == item_token_lines(items, items.len() as int)[k - 1]);
    }
}

/// Parsing the text of an input gives back its items and its capacity.
pub proof fn lemma_parse_round_trip(items: Seq<KnapsackItem>, cap: u64)
    requires
        cap >= 1,
        items.len() <= u64::MAX,
    ensures
        parse_outcome(input_text(items, cap)) == Ok::<_, KnapsackInputError>((items, cap)),
{
    let n = items.len();
    let empty = (Seq::<Seq<Seq<u8>>>::empty(), Seq::<Seq<u8>>::empty(), Seq::<u8>::empty());
    let first = digits(n) + seq![10u8];
    let second = digits(cap as nat) + seq![10u8];
    let head = first + second;
    let body = items_text(items, n as int);
    assert(input_text(items, cap) =~= head + body);
    lemma_scan_concat(empty, head, body);
    lemma_scan_concat(empty, first, second);
    lemma_scan_number_line(Seq::empty(), n);
    let l1 = Seq::<Seq<Seq<u8>>>::empty().push(seq![digits(n)]);
    lemma_scan_number_line(l1, cap as nat);
    let l2 = l1.push(seq![digits(cap as nat)]);
    lemma_scan_items(l2, items, n as int);
    let lines = l2 + item_token_lines(items, n as int);
    assert(text_lines(input_text(items, cap)) == lines);
    lemma_digits(n);
    lemma_digits(cap as nat);
    assert(lines[0] == seq![digits(n)]);
    assert(lines[1] == seq![digits(cap as nat)]);
    lemma_no_item_error(lines, items, n as int);
    assert forall|k: int| 0 <= k < n implies #[trigger] items_of(lines, n as int)[k] == items[k] by {
        assert(lines[k + 2] == item_token_lines(items, n as int)[k]);
        lemma_digits(items[k].profit as nat);
        lemma_digits(items[k].weight as nat);
    }
    assert(items_of(lines, n as int) =~= items);
}

proof fn lemma_dec_value_prefix(s: Seq<u8>, k: int)
    requires
        all_digits(s),
        0 <= k <= s.len(),
    ensures
        dec_value(s.take(k)) <= dec_value(s),
    decreases s.len(),
{
    if k < s.len() {
        assert(all_digits(s.drop_last()));
        assert(s.drop_last().take(k) =~= s.take(k));
        lemma_dec_value_prefix(s.drop_last(), k);
    } else {
        assert(s.take(k) =~= s);
    }
}

proof fn lemma_first_error_stays(lines: Seq<Seq<Seq<u8>>>, a: int, b: int)
    requires
        0 <= a <= b,
    ensures
        first_item_error(lines, a) is Some ==> first_item_error(lines, b) == first_item_error(
            lines,
            a,
        ),
    decreases b - a,
{
    if a < b {
        lemma_first_error_stays(lines, a, b - 1);
    }
}

/// Reads a token as a decimal `u64`.
fn parse_number(tok: &Vec<u8>) -> (r: Option<u64>)
    ensures
        r == if is_number(tok@) {
            Some(dec_value(tok@) as u64)
        } else {
            None::<u64>
        },
{
    if tok.len() == 0 {
        return None;
    }
    let mut acc: u64 = 0;
    let mut i: usize = 0;
    while i < tok.len()
        invariant
            0 <= i <= tok@.len(),
            all_digits(tok@.take(i as int)),
            acc == dec_value(tok@.take(i as int)),
        decreases tok@.len() - i,
    {
        let c = tok[i];
        proof {
            assert(tok@.take(i as int + 1).drop_last() =~= tok@.take(i as int));
        }
        if c < 48 || c > 57 {
            return None;
        }
        let next = match acc.checked_mul(10) {
            Some(m) => m.checked_add((c - 48) as u64),
            None => None,
        };
        match next {
            Some(v) => {
                acc = v;
            },
            None => {
                proof {
                    if all_digits(tok@) {
                        lemma_dec_value_prefix(tok@, i as int + 1);
                    }
                }
                return None;
            },
        }
        i += 1;
    }
    proof {
        assert(tok@.take(i as int) =~= tok@);
    }
    Some(acc)
}

fn finish_token(line: &mut Vec<Vec<u8>>, tok: Vec<u8>)
    ensures
        final(line).deep_view() == end_token(old(line).deep_view(), tok@),
{
    if tok.len() > 0 {
        let ghost t = tok@;
        assert(tok.deep_view() =~= t);
        line.push(tok);
        assert(line.deep_view() =~= old(line).deep_view().push(t));
    }
}

fn finish_line(lines: &mut Vec<Vec<Vec<u8>>>, line: Vec<Vec<u8>>)
    ensures
        final(lines).deep_view() == end_line(old(lines).deep_view(), line.deep_view()),
{
    if line.len() > 0 {
        let ghost l = line.deep_view();
        lines.push(line);
        assert(lines.deep_view() =~= old(lines).deep_view().push(l));
    }
}

/// Splits `text` into its non-empty lines, each a list of tokens.
fn scan_lines(text: &[u8]) -> (r: Vec<Vec<Vec<u8>>>)
    ensures
        r.deep_view() == text_lines(text@),
{
    let mut lines: Vec<Vec<Vec<u8>>> = Vec::new();
    let mut line: Vec<Vec<u8>> = Vec::new();
    let mut tok: Vec<u8> = Vec::new();
    let mut i: usize = 0;
    proof {
        assert(text@.take(0) =~= Seq::<u8>::empty());
        assert(lines.deep_view() =~= Seq::<Seq<Seq<u8>>>::empty());
        assert(line.deep_view() =~= Seq::<Seq<u8>>::empty());
    }
    while i < text.len()
        invariant
            0 <= i <= text@.len(),
            scan(text@.take(i as int)) == (lines.deep_view(), line.deep_view(), tok@),
        decreases text@.len() - i,
    {
        let c = text[i];
        proof {
            assert(text@.take(i as int + 1).drop_last() =~= text@.take(i as int));
        }
        if c == 10 {
            let mut t: Vec<u8> = Vec::new();
            std::mem::swap(&mut t, &mut tok);
            finish_token(&mut line, t);
            let mut l: Vec<Vec<u8>> = Vec::new();
            std::mem::swap(&mut l, &mut line);
            finish_line(&mut lines, l);
            proof {
                assert(line.deep_view() =~= Seq::<Seq<u8>>::empty());
            }
        } else if c == 32 || c == 9 || c == 11 || c == 12 || c == 13 {
            let mut t: Vec<u8> = Vec::new();
            std::mem::swap(&mut t, &mut tok);
            finish_token(&mut line, t);
        } else {
            tok.push(c);
        }
        i += 1;
    }
    proof {
        assert(text@.take(i as int) =~= text@);
    }
    finish_token(&mut line, tok);
    finish_line(&mut lines, line);
    lines
}

/// Reads a line that holds exactly one number.
fn read_single_number(line: &Vec<Vec<u8>>) -> (r: Option<u64>)
    ensures
        r == if single_number(line.deep_view()) {
            Some(dec_value(line.deep_view()[0]) as u64)
        } else {
            None::<u64>
        },
{
    if line.len() != 1 {
        return None;
    }
    assert(line[0].deep_view() =~= line[0]@);
    parse_number(&line[0])
}

impl KnapsackInput {
    /// Parses the textual format: the item count on the first non-empty line,
    /// the capacity on the second, then one `profit weight` line per item.
    /// Lines that hold only whitespace are skipped, and lines after the last
    /// item are ignored. The granularity is 1.
    pub fn parse_input(input: &[u8]) -> (r: Result<KnapsackInput, KnapsackInputError>)
        ensures
            match parse_outcome(input@) {
                Ok(v) => r matches Ok(i) && i.items_view() == v.0 && i.capacity_view() == v.1
                    && i.granularity_view() == 1,
                Err(e) => r == Err::<KnapsackInput, _>(e),
            },
    {
        let lines = scan_lines(input);
        let ghost ls = lines.deep_view();
        if lines.len() == 0 {
            return Err(KnapsackInputError::MissingItemCount);
        }
        let n = match read_single_number(&lines[0]) {
            Some(v) => v,
            None => return Err(KnapsackInputError::InvalidItemCount),
        };
        if lines.len() < 2 {
            return Err(KnapsackInputError::MissingCapacity);
        }
        let capacity = match read_single_number(&lines[1]) {
            Some(v) => v,
            None => return Err(KnapsackInputError::InvalidCapacity),
        };
        let nlines: usize = lines.len();
        let avail: usize = nlines - 2;
        let count: usize = if n < avail as u64 {
            n as usize
        } else {
            avail
        };
        let mut items: Vec<KnapsackItem> = Vec::new();
        let mut k: usize = 0;
        while k < count
            invariant
                ls == lines.deep_view(),
                ls == text_lines(input@),
                lines@.len() == ls.len(),
                nlines == ls.len(),
                ls.len() >= 2,
                single_number(ls[0]),
                single_number(ls[1]),
                n == dec_value(ls[0][0]),
                capacity == dec_value(ls[1][0]),
                count == if n < ls.len() - 2 {
                    n as int
                } else {
                    ls.len() - 2
                },
                count <= ls.len() - 2,
                0 <= k <= count,
                first_item_error(ls, k as int) is None,
                items@ == items_of(ls, k as int),
            decreases count - k,
        {
            let line = &lines[k + 2];
            assert(line.deep_view() == ls[k + 2]);
            proof {
                lemma_first_error_stays(ls, k as int + 1, count as int);
            }
            if line.len() != 2 {
                return Err(KnapsackInputError::InvalidItemSpecification);
            }
            assert(line[0].deep_view() =~= line[0]@);
            assert(line[1].deep_view() =~= line[1]@);
            let value = match parse_number(&line[0]) {
                Some(v) => v,
                None => return Err(KnapsackInputError::InvalidItemValue),
            };
            let weight = match parse_number(&line[1]) {
                Some(v) => v,
                None => return Err(KnapsackInputError::InvalidItemWeight),
            };
            items.push(KnapsackItem::new(weight, value));
            k += 1;
            assert(items@ =~= items_of(ls, k as int));
        }
        if (count as u64) < n {
            return Err(KnapsackInputError::InsufficientItems);
        }
        assert(items_of(ls, k as int) =~= items_of(ls, n as int));
        KnapsackInput::new(items, capacity, 1)
    }
}

} // verus!
