use vstd::prelude::*;

verus! {

/// The configuration of a run.
#[derive(Clone, Copy, Debug, PartialEq, Eq, Structural)]
pub struct Args {
    /// Upper bound of the starting values.
    pub n: u64,
    /// First multiplier.
    pub a_start: u64,
    /// Last multiplier.
    pub a_end: u64,
    /// Modulus base.
    pub p: u64,
    /// Produce the classification tables.
    pub write_table: bool,
    /// Produce the cycle reports.
    pub write_cycle: bool,
}

/// Why an argument list was refused; positions index the argument list.
#[derive(Clone, Copy, Debug, PartialEq, Eq, Structural)]
pub enum ArgsError {
    UnknownArgument(usize),
    MissingValue(usize),
    InvalidNumber(usize),
    MissingN,
    MissingStart,
    MissingEnd,
    /// Neither `--write-table` nor `--write-cycle` was given.
    NoReport,
}

/// The options read so far.
#[derive(Clone, Copy, Debug, PartialEq, Eq, Structural)]
pub struct Partial {
    pub n: Option<u64>,
    pub a_start: Option<u64>,
    pub a_end: Option<u64>,
    pub p: Option<u64>,
    pub write_table: bool,
    pub write_cycle: bool,
}

/// The modulus base where none is given.
pub const DEFAULT_P: u64 = 2;

pub open spec fn is_digit(b: u8) -> bool {
    48 <= b <= 57
}

/// The number written in decimal by `s`.
pub open spec fn decimal(s: Seq<u8>) -> int
    decreases s.len(),
{
    if s.len() == 0 {
        0
    } else {
        decimal(s.drop_last()) * 10 + (s.last() - 48)
    }
}

/// `s` is a decimal number that fits a `u64`.
pub open spec fn number(s: Seq<u8>) -> Option<u64> {
    if s.len() > 0 && (forall|i: int| 0 <= i < s.len() ==> is_digit(#[trigger] s[i])) && decimal(s)
        <= u64::MAX {
        Some(decimal(s) as u64)
    } else {
        None
    }
}

/// Which option an argument names: 0 `-n`, 1 `-s`, 2 `-e`, 3 `-p`,
/// 4 `--write-table`, 5 `--write-cycle`; -1 none.
pub open spec fn option_kind(x: Seq<u8>) -> int {
    if x == seq![45u8, 110u8] || x == seq![45u8, 45u8, 110u8] {
        0
    } else if x == seq![45u8, 115u8] || x == seq![45u8, 45u8, 115u8, 116u8, 97u8, 114u8, 116u8] {
        1
    } else if x == seq![45u8, 101u8] || x == seq![45u8, 45u8, 101u8, 110u8, 100u8] {
        2
    } else if x == seq![45u8, 112u8] || x == seq![45u8, 45u8, 112u8] {
        3
    } else if x == write_table_flag() {
        4
    } else if x == write_cycle_flag() {
        5
    } else {
        -1
    }
}

pub open spec fn write_table_flag() -> Seq<u8> {
    seq![45u8, 45u8, 119u8, 114u8, 105u8, 116u8, 101u8, 45u8, 116u8, 97u8, 98u8, 108u8, 101u8]
}

pub open spec fn write_cycle_flag() -> Seq<u8> {
    seq![45u8, 45u8, 119u8, 114u8, 105u8, 116u8, 101u8, 45u8, 99u8, 121u8, 99u8, 108u8, 101u8]
}

/// `st` with option `k` set to `v`.
pub open spec fn with_value(st: Partial, k: int, v: u64) -> Partial {
    if k == 0 {
        Partial { n: Some(v), ..st }
    } else if k == 1 {
        Partial { a_start: Some(v), ..st }
    } else if k == 2 {
        Partial { a_end: Some(v), ..st }
    } else {
        Partial { p: Some(v), ..st }
    }
}

/// Reads the arguments from index `i` on into `st`; a later option
/// overrides an earlier one.
pub open spec fn scan(args: Seq<Seq<u8>>, i: int, st: Partial) -> Result<Partial, ArgsError>
    decreases args.len() - i,
{
    if i < 0 || i >= args.len() {
        Ok(st)
    } else {
        let k = option_kind(args[i]);
        if k < 0 {
            Err(ArgsError::UnknownArgument(i as usize))
        } else if k == 4 {
            scan(args, i + 1, Partial { write_table: true, ..st })
        } else if k == 5 {
            scan(args, i + 1, Partial { write_cycle: true, ..st })
        } else if i + 1 >= args.len() {
            Err(ArgsError::MissingValue(i as usize))
        } else {
            match number(args[i + 1]) {
                None => Err(ArgsError::InvalidNumber((i + 1) as usize)),
                Some(v) => scan(args, i + 2, with_value(st, k, v)),
            }
        }
    }
}

/// The configuration given by the options read, or what is missing.
pub open spec fn finish(st: Partial) -> Result<Args, ArgsError> {
    if st.n is None {
        Err(ArgsError::MissingN)
    } else if st.a_start is None {
        Err(ArgsError::MissingStart)
    } else if st.a_end is None {
        Err(ArgsError::MissingEnd)
    } else if !st.write_table && !st.write_cycle {
        Err(ArgsError::NoReport)
    } else {
        Ok(
            Args {
                n: st.n.unwrap(),
                a_start: st.a_start.unwrap(),
                a_end: st.a_end.unwrap(),
                p: if st.p is Some { st.p.unwrap() } else { DEFAULT_P },
                write_table: st.write_table,
                write_cycle: st.write_cycle,
            },
        )
    }
}

pub open spec fn empty_partial() -> Partial {
    Partial { n: None, a_start: None, a_end: None, p: None, write_table: false, write_cycle: false }
}

/// The configuration that a command line gives; its first element names the
/// program.
pub open spec fn parse_spec(args: Seq<Seq<u8>>) -> Result<Args, ArgsError> {
    match scan(args, 1, empty_partial()) {
        Ok(st) => finish(st),
        Err(e) => Err(e),
    }
}

pub open spec fn arg_views(args: Seq<Vec<u8>>) -> Seq<Seq<u8>> {
    args.map_values(|a: Vec<u8>| a@)
}

fn same_bytes(x: &Vec<u8>, lit: &Vec<u8>) -> (r: bool)
    ensures
        r == (x@ == lit@),
{
    if x.len() != lit.len() {
        return false;
    }
    let mut i: usize = 0;
    while i < x.len()
        invariant
            x@.len() == lit@.len(),
            0 <= i <= x@.len(),
            forall|j: int| 0 <= j < i ==> x@[j] == lit@[j],
        decreases x@.len() - i,
    {
        if x[i] != lit[i] {
            return false;
        }
        i += 1;
    }
    assert(x@ =~= lit@);
    true
}

fn kind_of(x: &Vec<u8>) -> (r: i8)
    ensures
        r as int == option_kind(x@),
{
    if same_bytes(x, &vec![45u8, 110u8]) || same_bytes(x, &vec![45u8, 45u8, 110u8]) {
        0
    } else if same_bytes(x, &vec![45u8, 115u8]) || same_bytes(
        x,
        &vec![45u8, 45u8, 115u8, 116u8, 97u8, 114u8, 116u8],
    ) {
        1
    } else if same_bytes(x, &vec![45u8, 101u8]) || same_bytes(
        x,
        &vec![45u8, 45u8, 101u8, 110u8, 100u8],
    ) {
        2
    } else if same_bytes(x, &vec![45u8, 112u8]) || same_bytes(x, &vec![45u8, 45u8, 112u8]) {
        3
    } else if same_bytes(
        x,
        &vec![45u8, 45u8, 119u8, 114u8, 105u8, 116u8, 101u8, 45u8, 116u8, 97u8, 98u8, 108u8, 101u8],
    ) {
        4
    } else if same_bytes(
        x,
        &vec![45u8, 45u8, 119u8, 114u8, 105u8, 116u8, 101u8, 45u8, 99u8, 121u8, 99u8, 108u8, 101u8],
    ) {
        5
    } else {
        -1
    }
}

/// Reads a decimal number that fits a `u64`.
pub fn parse_number(x: &Vec<u8>) -> (r: Option<u64>)
    ensures
        r == number(x@),
{
    if x.len() == 0 {
        return None;
    }
    let mut v: u64 = 0;
    let mut i: usize = 0;
    while i < x.len()
        invariant
            0 <= i <= x@.len(),
            forall|j: int| 0 <= j < i ==> is_digit(#[trigger] x@[j]),
            v as int == decimal(x@.subrange(0, i as int)),
        decreases x@.len() - i,
    {
        let b = x[i];
        assert(x@.subrange(0, i as int + 1).drop_last() =~= x@.subrange(0, i as int));
        if b < 48 || b > 57 {
            return None;
        }
        let d = (b - 48) as u64;
        if v > (u64::MAX - d) / 10 {
            proof {
                assert(decimal(x@.subrange(0, i as int + 1)) == v * 10 + d);
                lemma_decimal_prefix_bound(x@, i as int + 1);
            }
            return None;
        }
        v = v * 10 + d;
        i += 1;
    }
    assert(x@.subrange(0, x@.len() as int) =~= x@);
    Some(v)
}

/// A decimal number is at least as large as any of its prefixes.
proof fn lemma_decimal_prefix_bound(s: Seq<u8>, k: int)
    requires
        0 <= k <= s.len(),
        forall|i: int| 0 <= i < s.len() ==> is_digit(#[trigger] s[i]) || i >= k,
    ensures
        (forall|i: int| 0 <= i < s.len() ==> is_digit(#[trigger] s[i])) ==> decimal(s) >= decimal(
            s.subrange(0, k),
        ),
    decreases s.len() - k,
{
    if k < s.len() && (forall|i: int| 0 <= i < s.len() ==> is_digit(#[trigger] s[i])) {
        lemma_decimal_prefix_bound(s, k + 1);
        assert(s.subrange(0, k + 1).drop_last() =~= s.subrange(0, k));
        lemma_decimal_nonneg(s.subrange(0, k));
    } else if k == s.len() {
        assert(s.subrange(0, k) =~= s);
    }
}

proof fn lemma_decimal_nonneg(s: Seq<u8>)
    requires
        forall|i: int| 0 <= i < s.len() ==> is_digit(#[trigger] s[i]),
    ensures
        decimal(s) >= 0,
    decreases s.len(),
{
    if s.len() > 0 {
        lemma_decimal_nonneg(s.drop_last());
    }
}

impl Args {
    /// Reads the configuration from a command line whose first element names
    /// the program.
    pub fn parse(args: &Vec<Vec<u8>>) -> (r: Result<Args, ArgsError>)
        ensures
            r == parse_spec(arg_views(args@)),
    {
        let ghost views = arg_views(args@);
        let mut st = Partial {
            n: None,
            a_start: None,
            a_end: None,
            p: None,
            write_table: false,
            write_cycle: false,
        };
        let mut i: usize = 1;
        while i < args.len()
            invariant
                views == arg_views(args@),
                1 <= i,
                scan(views, i as int, st) == scan(views, 1, empty_partial()),
            decreases args@.len() - i,
        {
            let k = kind_of(&args[i]);
            if k < 0 {
                return Err(ArgsError::UnknownArgument(i));
            } else if k == 4 {
                st.write_table = true;
                i += 1;
            } else if k == 5 {
                st.write_cycle = true;
                i += 1;
            } else if i + 1 >= args.len() {
                return Err(ArgsError::MissingValue(i));
            } else {
                match parse_number(&args[i + 1]) {
                    None => return Err(ArgsError::InvalidNumber(i + 1)),
                    Some(v) => {
                        if k == 0 {
                            st.n = Some(v);
                        } else if k == 1 {
                            st.a_start = Some(v);
                        } else if k == 2 {
                            st.a_end = Some(v);
                        } else {
                            st.p = Some(v);
                        }
                        i += 2;
                    },
                }
            }
        }
        if st.n.is_none() {
            return Err(ArgsError::MissingN);
        }
        if st.a_start.is_none() {
            return Err(ArgsError::MissingStart);
        }
        if st.a_end.is_none() {
            return Err(ArgsError::MissingEnd);
        }
        if !st.write_table && !st.write_cycle {
            return Err(ArgsError::NoReport);
        }
        let p = match st.p {
            Some(p) => p,
            None => DEFAULT_P,
        };
        Ok(
            Args {
                n: st.n.unwrap(),
                a_start: st.a_start.unwrap(),
                a_end: st.a_end.unwrap(),
                p,
                write_table: st.write_table,
                write_cycle: st.write_cycle,
            },
        )
    }
}

} // verus!
