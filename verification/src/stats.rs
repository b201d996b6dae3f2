//! Statistics of a LIR program.
use vstd::prelude::*;

verus! {

/// Counts over a program: fields of struct types, functions that return a
/// value, parameters, locals, basic blocks, instructions, terminals, and
/// locals and globals by type.
#[derive(Debug, Clone, Copy, PartialEq, Eq, Structural)]
pub struct Stats {
    pub num_fields: u32,
    pub num_functions: u32,
    pub num_func_params: u32,
    pub num_locals: u32,
    pub num_basic_blocks: u32,
    pub num_instructions: u32,
    pub num_terminals: u32,
    pub num_ints: u32,
    pub num_structs: u32,
    pub num_ptr_ints: u32,
    pub num_ptr_structs: u32,
    pub num_ptr_funcs: u32,
    pub num_ptr_ptrs: u32,
}

/// All counts zero.
pub open spec fn zero_stats() -> Stats {
    Stats {
        num_fields: 0,
        num_functions: 0,
        num_func_params: 0,
        num_locals: 0,
        num_basic_blocks: 0,
        num_instructions: 0,
        num_terminals: 0,
        num_ints: 0,
        num_structs: 0,
        num_ptr_ints: 0,
        num_ptr_structs: 0,
        num_ptr_funcs: 0,
        num_ptr_ptrs: 0,
}
}

impl Stats {
    /// All counts zero.
    pub fn new() -> (r: Stats)
        ensures
            r == zero_stats(),
    {
        Stats {
            num_fields: 0,
            num_functions: 0,
            num_func_params: 0,
            num_locals: 0,
            num_basic_blocks: 0,
            num_instructions: 0,
            num_terminals: 0,
            num_ints: 0,
            num_structs: 0,
            num_ptr_ints: 0,
            num_ptr_structs: 0,
            num_ptr_funcs: 0,
            num_ptr_ptrs: 0,
        }
    }
}

/// Position of the first `": "` in `t` at or after `i`, or -1.
pub open spec fn sep_pos(t: Seq<char>, i: int) -> int
    decreases t.len() - i,
{
    if i < 0 || i + 1 >= t.len() {
        -1
    } else if t[i] == ':' && t[i + 1] == ' ' {
        i
    } else {
        sep_pos(t, i + 1)
    }
}

/// The two parts of a line that holds `": "` exactly once: before and after it.
pub open spec fn line_parts(t: Seq<char>) -> Option<(Seq<char>, Seq<char>)> {
    let p = sep_pos(t, 0);
    if p >= 0 && sep_pos(t, p + 2) < 0 {
        Some((t.take(p), t.skip(p + 2)))
    } else {
        None
    }
}

/// Whether every character of `s` is a decimal digit.
pub open spec fn all_digits(s: Seq<char>) -> bool {
    forall|i: int| 0 <= i < s.len() ==> '0' <= #[trigger] s[i] <= '9'
}

/// The number that the decimal digits of `s` stand for.
pub open spec fn digits_value(s: Seq<char>) -> int
    decreases s.len(),
{
    if s.len() == 0 {
        0
    } else {
        digits_value(s.drop_last()) * 10 + (s.last() as int - '0' as int)
    }
}

/// The `u32` that a text stands for: an optional `+`, then at least one
/// decimal digit, with a value that fits.
pub open spec fn parse_u32(s: Seq<char>) -> Option<u32> {
    let d = if s.len() > 0 && s[0] == '+' {
        s.drop_first()
    } else {
        s
    };
    if d.len() > 0 && all_digits(d) && digits_value(d) <= u32::MAX {
        Some(digits_value(d) as u32)
    } else {
        None
    }
}

/// Whether a text names one of the statistics.
pub open spec fn is_stat_key(k: Seq<char>) -> bool {
    ||| k == "Number of fields across all struct types"@
    ||| k == "Number of functions that return a value"@
    ||| k == "Number of function parameters"@
    ||| k == "Number of local variables"@
    ||| k == "Number of basic blocks"@
    ||| k == "Number of instructions"@
    ||| k == "Number of terminals"@
    ||| k == "Number of locals and globals with int type"@
    ||| k == "Number of locals and globals with struct type"@
    ||| k == "Number of locals and globals with pointer to int type"@
    ||| k == "Number of locals and globals with pointer to struct type"@
    ||| k == "Number of locals and globals with pointer to function type"@
    ||| k == "Number of locals and globals with pointer to pointer type"@
}

/// The statistics after setting the one that `k` names to `n`.
pub open spec fn set_stat(st: Stats, k: Seq<char>, n: u32) -> Stats {
    if k == "Number of fields across all struct types"@ {
        Stats { num_fields: n, ..st }
    } else if k == "Number of functions that return a value"@ {
        Stats { num_functions: n, ..st }
    } else if k == "Number of function parameters"@ {
        Stats { num_func_params: n, ..st }
    } else if k == "Number of local variables"@ {
        Stats { num_locals: n, ..st }
    } else if k == "Number of basic blocks"@ {
        Stats { num_basic_blocks: n, ..st }
    } else if k == "Number of instructions"@ {
        Stats { num_instructions: n, ..st }
    } else if k == "Number of terminals"@ {
        Stats { num_terminals: n, ..st }
    } else if k == "Number of locals and globals with int type"@ {
        Stats { num_ints: n, ..st }
    } else if k == "Number of locals and globals with struct type"@ {
        Stats { num_structs: n, ..st }
    } else if k == "Number of locals and globals with pointer to int type"@ {
        Stats { num_ptr_ints: n, ..st }
    } else if k == "Number of locals and globals with pointer to struct type"@ {
        Stats { num_ptr_structs: n, ..st }
    } else if k == "Number of locals and globals with pointer to function type"@ {
        Stats { num_ptr_funcs: n, ..st }
    } else if k == "Number of locals and globals with pointer to pointer type"@ {
        Stats { num_ptr_ptrs: n, ..st }
    } else {
        st
    }
}

/// Whether a line can be read: when it is a named statistic and a value,
/// the value is a number.
pub open spec fn line_ok(t: Seq<char>) -> bool {
    match line_parts(t) {
        Some((k, v)) => is_stat_key(k) ==> parse_u32(v) is Some,
        None => true,
    }
}

/// The statistics after reading one line: a named statistic and its value,
/// split at `": "`, sets that statistic; any other line changes nothing.
pub open spec fn read_line(st: Stats, t: Seq<char>) -> Stats {
    match line_parts(t) {
        Some((k, v)) => if is_stat_key(k) {
            set_stat(st, k, parse_u32(v)->Some_0)
        } else {
            st
        },
        None => st,
    }
}

/// The statistics after reading the lines in order, from all zero.
pub open spec fn read_lines(ls: Seq<Seq<char>>) -> Stats
    decreases ls.len(),
{
    if ls.len() == 0 {
        zero_stats()
    } else {
        read_line(read_lines(ls.drop_last()), ls.last())
    }
}

/// The lines of a text list as texts.
pub open spec fn lines_view(v: Seq<String>) -> Seq<Seq<char>> {
    v.map_values(|s: String| s@)
}

/// The position of the first `": "` in `t` at or after `from`, or the length.
fn find_sep(t: &str, from: usize) -> (r: usize)
    requires
        from <= t@.len(),
    ensures
        sep_pos(t@, from as int) < 0 ==> r == t@.len(),
        sep_pos(t@, from as int) >= 0 ==> r == sep_pos(t@, from as int) && r + 1 < t@.len(),
{
    let n = t.unicode_len();
    let mut i = from;
    while n - i > 1
        invariant
            n == t@.len(),
            from <= i <= n,
            sep_pos(t@, from as int) == sep_pos(t@, i as int),
        decreases n - i,
    {
        if t.get_char(i) == ':' && t.get_char(i + 1) == ' ' {
            return i;
        }
        i += 1;
    }
    n
}

/// Reads a `u32` written as an optional `+` and decimal digits.
pub fn parse_number(s: &str) -> (r: Option<u32>)
    ensures
        r == parse_u32(s@),
{
    let n = s.unicode_len();
    let start: usize = if n > 0 && s.get_char(0) == '+' {
        1
    } else {
        0
    };
    let ghost d = s@.skip(start as int);
    assert(d =~= (if s@.len() > 0 && s@[0] == '+' { s@.drop_first() } else { s@ }));
    if start >= n {
        return None;
    }
    let mut v: u64 = 0;
    let mut i = start;
    while i < n
        invariant
            n == s@.len(),
            start <= i <= n,
            d == s@.skip(start as int),
            d == (if s@.len() > 0 && s@[0] == '+' { s@.drop_first() } else { s@ }),
            all_digits(d.take(i - start)),
            v == digits_value(d.take(i - start)),
            v <= u32::MAX,
        decreases n - i,
    {
        let c = s.get_char(i);
        assert(d.take(i - start + 1).drop_last() =~= d.take(i - start));
        assert(d[i - start] == c);
        if c < '0' || c > '9' {
            assert(!all_digits(d)) by {
                assert(d[i - start] == c);
            }
            return None;
        }
        let digit: u64 = (c as u32 - '0' as u32) as u64;
        assert(digits_value(d.take(i - start + 1)) == v * 10 + digit);
        if v > (u32::MAX as u64 - digit) / 10 {
            proof {
                assert(v * 10 + digit > u32::MAX) by (nonlinear_arith)
                    requires
                        v > (u32::MAX as u64 - digit) / 10,
                        digit <= 9,
                ;
                lemma_digits_prefix_bound(d, i - start + 1);
            }
            return None;
        }
        v = v * 10 + digit;
        i += 1;
    }
    assert(d.take(n - start) =~= d);
    Some(v as u32)
}

/// The value of the digits of a prefix bounds the value of the whole.
proof fn lemma_digits_prefix_bound(d: Seq<char>, k: int)
    requires
        0 <= k <= d.len(),
        all_digits(d.take(k)),
    ensures
        all_digits(d) ==> digits_value(d.take(k)) <= digits_value(d),
    decreases d.len() - k,
{
    if k < d.len() && all_digits(d) {
        lemma_digits_prefix_bound(d, k + 1);
        assert(d.take(k + 1).drop_last() =~= d.take(k));
        assert(digits_value(d.take(k)) >= 0) by {
            lemma_digits_nonneg(d.take(k));
        }
    } else if k == d.len() {
        assert(d.take(k) =~= d);
    }
}

/// The value of decimal digits is not negative.
proof fn lemma_digits_nonneg(d: Seq<char>)
    requires
        all_digits(d),
    ensures
        digits_value(d) >= 0,
    decreases d.len(),
{
    if d.len() > 0 {
        lemma_digits_nonneg(d.drop_last());
    }
}

impl Stats {
    /// Reads one line into the statistics; see [`read_line`].
    fn read_one(&mut self, line: &String)
        requires
            line_ok(line@),
        ensures
            *final(self) == read_line(*old(self), line@),
    {
        let t = line.as_str();
        let len = t.unicode_len();
        let p = find_sep(t, 0);
        if p >= len {
            return;
        }
        let q = find_sep(t, p + 2);
        if q < len {
            return;
        }
        let key = String::from_str(t.substring_char(0, p));
        let value = t.substring_char(p + 2, len);
        assert(key@ == t@.take(p as int));
        assert(value@ == t@.skip(p + 2));
        if !is_key(&key) {
            return;
        }
        let n = match parse_number(value) {
            Some(n) => n,
            None => {
                return;
            },
        };
        let st = self;
        if key == String::from_str("Number of fields across all struct types") {
            st.num_fields = n;
        } else if key == String::from_str("Number of functions that return a value") {
            st.num_functions = n;
        } else if key == String::from_str("Number of function parameters") {
            st.num_func_params = n;
        } else if key == String::from_str("Number of local variables") {
            st.num_locals = n;
        } else if key == String::from_str("Number of basic blocks") {
            st.num_basic_blocks = n;
        } else if key == String::from_str("Number of instructions") {
            st.num_instructions = n;
        } else if key == String::from_str("Number of terminals") {
            st.num_terminals = n;
        } else if key == String::from_str("Number of locals and globals with int type") {
            st.num_ints = n;
        } else if key == String::from_str("Number of locals and globals with struct type") {
            st.num_structs = n;
        } else if key == String::from_str("Number of locals and globals with pointer to int type") {
            st.num_ptr_ints = n;
        } else if key == String::from_str("Number of locals and globals with pointer to struct type") {
            st.num_ptr_structs = n;
        } else if key == String::from_str("Number of locals and globals with pointer to function type") {
            st.num_ptr_funcs = n;
        } else if key == String::from_str("Number of locals and globals with pointer to pointer type") {
            st.num_ptr_ptrs = n;
        }
    }

    /// Whether a line can be read: when it names a statistic and a value,
    /// the value is a number; see [`line_ok`].
    pub fn line_is_readable(line: &String) -> (r: bool)
        ensures
            r == line_ok(line@),
    {
        let t = line.as_str();
        let len = t.unicode_len();
        let p = find_sep(t, 0);
        if p >= len {
            return true;
        }
        let q = find_sep(t, p + 2);
        if q < len {
            return true;
        }
        let key = String::from_str(t.substring_char(0, p));
        let value = t.substring_char(p + 2, len);
        assert(key@ == t@.take(p as int));
        assert(value@ == t@.skip(p + 2));
        !is_key(&key) || parse_number(value).is_some()
    }

    /// Reads the statistics from the lines of a statistics text, in order:
    /// each line `name: value` with the name of a statistic sets it to
    /// the value; other lines are skipped. The value of a named statistic
    /// must be a number.
    pub fn read_stats_lines(lines: &Vec<String>) -> (r: Stats)
        requires
            forall|i: int| 0 <= i < lines@.len() ==> line_ok(#[trigger] lines@[i]@),
        ensures
            r == read_lines(lines_view(lines@)),
    {
        let mut st = Stats::new();
        let mut i: usize = 0;
        assert(lines_view(lines@).take(0) =~= Seq::<Seq<char>>::empty());
        while i < lines.len()
            invariant
                i <= lines@.len(),
                forall|j: int| 0 <= j < lines@.len() ==> line_ok(#[trigger] lines@[j]@),
                st == read_lines(lines_view(lines@).take(i as int)),
            decreases lines.len() - i,
        {
            st.read_one(&lines[i]);
            assert(lines_view(lines@).take(i + 1).drop_last() =~= lines_view(lines@).take(i as int));
            i += 1;
        }
        assert(lines_view(lines@).take(lines@.len() as int) =~= lines_view(lines@));
        st
    }
}

/// Whether a text names one of the statistics.
fn is_key(k: &String) -> (r: bool)
    ensures
        r == is_stat_key(k@),
{
    *k == String::from_str("Number of fields across all struct types")
        || *k == String::from_str("Number of functions that return a value")
        || *k == String::from_str("Number of function parameters")
        || *k == String::from_str("Number of local variables")
        || *k == String::from_str("Number of basic blocks")
        || *k == String::from_str("Number of instructions")
        || *k == String::from_str("Number of terminals")
        || *k == String::from_str("Number of locals and globals with int type")
        || *k == String::from_str("Number of locals and globals with struct type")
        || *k == String::from_str("Number of locals and globals with pointer to int type")
        || *k == String::from_str("Number of locals and globals with pointer to struct type")
        || *k == String::from_str("Number of locals and globals with pointer to function type")
        || *k == String::from_str("Number of locals and globals with pointer to pointer type")
}

} // verus!
