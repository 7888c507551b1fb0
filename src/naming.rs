use vstd::prelude::*;

verus! {

/// The decimal digit `d` (below ten) as a one-character text.
pub open spec fn digit_text(d: nat) -> Seq<char> {
    if d == 0 {
        seq!['0']
    } else if d == 1 {
        seq!['1']
    } else if d == 2 {
        seq!['2']
    } else if d == 3 {
        seq!['3']
    } else if d == 4 {
        seq!['4']
    } else if d == 5 {
        seq!['5']
    } else if d == 6 {
        seq!['6']
    } else if d == 7 {
        seq!['7']
    } else if d == 8 {
        seq!['8']
    } else {
        seq!['9']
    }
}

/// The decimal notation of `n`, without sign or leading zeros.
pub open spec fn decimal(n: nat) -> Seq<char>
    decreases n,
{
    if n < 10 {
        digit_text(n)
    } else {
        decimal(n / 10) + digit_text(n % 10)
    }
}

/// The prefix shared by every generated file stem.
pub open spec fn stem_prefix() -> Seq<char> {
    seq!['o', 'u', 't', 'p', 'u', 't', '_']
}

/// The file stem `output_{n}`.
pub open spec fn stem_of(n: nat) -> Seq<char> {
    stem_prefix() + decimal(n)
}

/// The texts of a list of strings.
pub open spec fn texts(v: Seq<String>) -> Seq<Seq<char>> {
    v.map_values(|s: String| s@)
}

/// `n` is the smallest positive integer whose stem is not among `stems`.
pub open spec fn is_first_free(stems: Seq<Seq<char>>, n: nat) -> bool {
    &&& n >= 1
    &&& !stems.contains(stem_of(n))
    &&& forall|k: nat| 1 <= k < n ==> stems.contains(#[trigger] stem_of(k))
}

proof fn lemma_digit_text(d: nat)
    requires
        d < 10,
    ensures
        digit_text(d).len() == 1,
        forall|e: nat| e < 10 && #[trigger] digit_text(e) == digit_text(d) ==> e == d,
{
    assert forall|e: nat| e < 10 && #[trigger] digit_text(e) == digit_text(d) implies e == d by {
        assert(digit_text(e)[0] == digit_text(d)[0]);
    }
}

proof fn lemma_decimal_len(n: nat)
    ensures
        decimal(n).len() >= 1,
        n >= 10 ==> decimal(n).len() >= 2,
    decreases n,
{
    if n < 10 {
        lemma_digit_text(n);
    } else {
        lemma_decimal_len(n / 10);
        lemma_digit_text(n % 10);
    }
}

/// Distinct numbers have distinct decimal notations.
pub proof fn lemma_decimal_injective(a: nat, b: nat)
    requires
        decimal(a) == decimal(b),
    ensures
        a == b,
    decreases a,
{
    lemma_decimal_len(a);
    lemma_decimal_len(b);
    if a < 10 && b < 10 {
        lemma_digit_text(a);
    } else if a >= 10 && b >= 10 {
        let da = decimal(a / 10);
        let db = decimal(b / 10);
        lemma_digit_text(a % 10);
        lemma_digit_text(b % 10);
        assert(decimal(a) == da + digit_text(a % 10));
        assert(decimal(b) == db + digit_text(b % 10));
        assert(da.len() == db.len());
        assert(da =~= decimal(a).subrange(0, da.len() as int));
        assert(db =~= decimal(b).subrange(0, db.len() as int));
        assert(digit_text(a % 10) =~= decimal(a).subrange(da.len() as int, decimal(a).len() as int));
        assert(digit_text(b % 10) =~= decimal(b).subrange(db.len() as int, decimal(b).len() as int));
        lemma_decimal_injective(a / 10, b / 10);
    } else {
        lemma_digit_text(if a < 10 { a } else { b });
    }
}

/// Distinct numbers give distinct stems.
pub proof fn lemma_stem_injective(a: nat, b: nat)
    requires
        stem_of(a) == stem_of(b),
    ensures
        a == b,
{
    let p = stem_prefix();
    assert(decimal(a) =~= stem_of(a).subrange(p.len() as int, stem_of(a).len() as int));
    assert(decimal(b) =~= stem_of(b).subrange(p.len() as int, stem_of(b).len() as int));
    lemma_decimal_injective(a, b);
}

/// A list that holds the stems of 1 to `m` has at least `m` entries.
proof fn lemma_stems_fill(stems: Seq<Seq<char>>, m: nat)
    requires
        forall|k: nat| 1 <= k <= m ==> stems.contains(#[trigger] stem_of(k)),
    ensures
        m <= stems.len(),
    decreases m,
{
    if m > 0 {
        let j = choose|j: int| 0 <= j < stems.len() && stems[j] == stem_of(m);
        let rest = stems.remove(j);
        assert forall|k: nat| 1 <= k <= (m - 1) as nat implies rest.contains(#[trigger] stem_of(k)) by {
            assert(stems.contains(stem_of(k)));
            let i = choose|i: int| 0 <= i < stems.len() && stems[i] == stem_of(k);
            if i == j {
                lemma_stem_injective(k, m);
            }
            if i < j {
                assert(rest[i] == stem_of(k));
            } else {
                assert(rest[i - 1] == stem_of(k));
            }
        }
        lemma_stems_fill(rest, (m - 1) as nat);
    }
}

fn digit_str(d: u64) -> (r: &'static str)
    requires
        d < 10,
    ensures
        r@ == digit_text(d as nat),
{
    proof {
        reveal_strlit("0");
        reveal_strlit("1");
        reveal_strlit("2");
        reveal_strlit("3");
        reveal_strlit("4");
        reveal_strlit("5");
        reveal_strlit("6");
        reveal_strlit("7");
        reveal_strlit("8");
        reveal_strlit("9");
    }
    match d {
        0 => "0",
        1 => "1",
        2 => "2",
        3 => "3",
        4 => "4",
        5 => "5",
        6 => "6",
        7 => "7",
        8 => "8",
        _ => "9",
    }
}

/// Writes `n` in decimal.
pub fn decimal_string(n: u64) -> (r: String)
    ensures
        r@ == decimal(n as nat),
    decreases n,
{
    if n < 10 {
        String::from_str(digit_str(n))
    } else {
        let mut s = decimal_string(n / 10);
        s.append(digit_str(n % 10));
        s
    }
}

/// The stem `output_{n}`.
pub fn stem_string(n: u64) -> (r: String)
    ensures
        r@ == stem_of(n as nat),
{
    proof {
        reveal_strlit("output_");
    }
    let mut s = String::from_str("output_");
    let d = decimal_string(n);
    s.append(d.as_str());
    s
}

/// Whether `s` is among `v`.
pub fn contains_text(v: &Vec<String>, s: &String) -> (r: bool)
    ensures
        r == texts(v@).contains(s@),
{
    let mut i: usize = 0;
    while i < v.len()
        invariant
            i <= v@.len(),
            forall|j: int| 0 <= j < i ==> v@[j]@ != s@,
        decreases v@.len() - i,
    {
        if v[i] == *s {
            assert(texts(v@)[i as int] == s@);
            return true;
        }
        i = i + 1;
    }
    proof {
        if texts(v@).contains(s@) {
            let j = choose|j: int| 0 <= j < texts(v@).len() && texts(v@)[j] == s@;
            assert(v@[j]@ == s@);
        }
    }
    false
}

/// The stem for a new file among the files whose stems are `existing`: `output_{n}` with `n`
/// the smallest positive integer whose stem is not taken. Never one of `existing`.
pub fn next_stem(existing: &Vec<String>) -> (r: String)
    requires
        existing@.len() < u64::MAX,
    ensures
        exists|n: nat| is_first_free(texts(existing@), n) && r@ == stem_of(n),
        !texts(existing@).contains(r@),
{
    let ghost stems = texts(existing@);
    let mut i: u64 = 1;
    loop
        invariant
            1 <= i,
            i - 1 <= existing@.len(),
            existing@.len() < u64::MAX,
            stems == texts(existing@),
            forall|k: nat| 1 <= k < i ==> stems.contains(#[trigger] stem_of(k)),
        decreases existing@.len() + 1 - i,
    {
        let candidate = stem_string(i);
        if !contains_text(existing, &candidate) {
            assert(is_first_free(stems, i as nat));
            return candidate;
        }
        proof {
            lemma_stems_fill(stems, i as nat);
        }
        i = i + 1;
    }
}

/// The file name `{stem}.{extension}` for a new file among the files whose stems are
/// `existing`, with the stem chosen by `next_stem`.
pub fn output_file_name(existing: &Vec<String>, extension: &str) -> (r: String)
    requires
        existing@.len() < u64::MAX,
    ensures
        exists|n: nat|
            is_first_free(texts(existing@), n) && r@ == stem_of(n) + seq!['.'] + extension@,
{
    proof {
        reveal_strlit(".");
    }
    let mut name = next_stem(existing);
    name.append(".");
    name.append(extension);
    name
}

/// Among the stems of one directory there is one first free number.
pub proof fn lemma_first_free_unique(stems: Seq<Seq<char>>, a: nat, b: nat)
    requires
        is_first_free(stems, a),
        is_first_free(stems, b),
    ensures
        a == b,
{
    if a < b {
        assert(stems.contains(stem_of(a)));
    } else if b < a {
        assert(stems.contains(stem_of(b)));
    }
}

/// Naming is deterministic: two choices against the same stems agree, whatever the order in
/// which the directory listed them.
pub proof fn lemma_naming_deterministic(
    existing1: Seq<Seq<char>>,
    existing2: Seq<Seq<char>>,
    n1: nat,
    n2: nat,
)
    requires
        forall|x: Seq<char>| existing1.contains(x) <==> existing2.contains(x),
        is_first_free(existing1, n1),
        is_first_free(existing2, n2),
    ensures
        n1 == n2,
        stem_of(n1) == stem_of(n2),
{
    assert(is_first_free(existing2, n1));
    lemma_first_free_unique(existing2, n1, n2);
}

/// Once the chosen stem is written, the next choice differs from it.
pub proof fn lemma_no_reuse_after_write(existing: Seq<Seq<char>>, n: nat, m: nat)
    requires
        is_first_free(existing, n),
        is_first_free(existing.push(stem_of(n)), m),
    ensures
        m != n,
        stem_of(m) != stem_of(n),
{
    assert(existing.push(stem_of(n))[existing.len() as int] == stem_of(n));
    assert(existing.push(stem_of(n)).contains(stem_of(n)));
}

/// A chosen stem is never one that already exists.
pub proof fn lemma_never_overwrites(existing: Seq<Seq<char>>, n: nat)
    requires
        is_first_free(existing, n),
    ensures
        forall|i: int| 0 <= i < existing.len() ==> existing[i] != stem_of(n),
{
    assert forall|i: int| 0 <= i < existing.len() implies existing[i] != stem_of(n) by {
        if existing[i] == stem_of(n) {
            assert(existing.contains(stem_of(n)));
        }
    }
}

} // verus!
