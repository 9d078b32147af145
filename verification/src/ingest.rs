//! The pure half of record ingestion: looking fields up in the parsed
//! key/value lines of a per-process status file, reading decimal numbers,
//! reshaping a raw command line, and assembling a process record. Reading
//! the files themselves is the caller's business; everything here works
//! on plain values.

use vstd::prelude::*;

use crate::text::str_eq;
use crate::tree::ProcessRecord;

verus! {

/// Why one process's record could not be assembled.
#[derive(Debug)]
pub enum PidReadError {
    ParseError(String),
}

/// The key/value lines of one status file, in file order. A later line
/// with the same key shadows an earlier one.
pub struct ProcessParams {
    pub entries: Vec<(String, Vec<String>)>,
}

/// The value list of the last entry carrying `key`, if any.
pub open spec fn param_lookup(entries: Seq<(String, Vec<String>)>, key: Seq<char>) -> Option<
    Seq<Seq<char>>,
>
    decreases entries.len(),
{
    if entries.len() == 0 {
        None
    } else if entries.last().0@ == key {
        Some(entries.last().1.deep_view())
    } else {
        param_lookup(entries.drop_last(), key)
    }
}

/// The first value of the parameter `key`, if the parameter is present
/// and carries at least one value.
pub open spec fn lookup_first(entries: Seq<(String, Vec<String>)>, key: Seq<char>) -> Option<
    Seq<char>,
> {
    match param_lookup(entries, key) {
        Some(vals) => if vals.len() > 0 {
            Some(vals[0])
        } else {
            None
        },
        None => None,
    }
}

/// The complaint for a parameter that is absent or carries no value.
pub open spec fn missing_msg(key: Seq<char>) -> Seq<char> {
    "missing "@ + key + " parameter"@
}

/// The complaint for a parameter whose value is not a decimal number.
pub open spec fn invalid_msg(key: Seq<char>) -> Seq<char> {
    "invalid "@ + key + " parameter"@
}

impl ProcessParams {
    /// An empty parameter set.
    pub fn new() -> (r: ProcessParams)
        ensures
            r.entries@.len() == 0,
    {
        ProcessParams { entries: Vec::new() }
    }

    /// Adds one key/value line; it shadows earlier lines with the same
    /// key.
    pub fn insert(&mut self, key: String, values: Vec<String>)
        ensures
            final(self).entries@ == old(self).entries@.push((key, values)),
    {
        self.entries.push((key, values));
    }

    fn get<'a>(&'a self, key: &str) -> (r: Option<&'a Vec<String>>)
        ensures
            match r {
                Some(vals) => param_lookup(self.entries@, key@) == Some(vals.deep_view()),
                None => param_lookup(self.entries@, key@) is None,
            },
    {
        let mut i: usize = self.entries.len();
        proof {
            assert(self.entries@.subrange(0, i as int) =~= self.entries@);
        }
        while i > 0
            invariant
                i <= self.entries@.len(),
                param_lookup(self.entries@, key@) == param_lookup(
                    self.entries@.subrange(0, i as int),
                    key@,
                ),
            decreases i,
        {
            i = i - 1;
            let ghost pre = self.entries@.subrange(0, i + 1);
            proof {
                assert(pre.last() == self.entries@[i as int]);
                assert(pre.drop_last() =~= self.entries@.subrange(0, i as int));
            }
            if str_eq(self.entries[i].0.as_str(), key) {
                return Some(&self.entries[i].1);
            }
        }
        proof {
            assert(self.entries@.subrange(0, 0) =~= Seq::<(String, Vec<String>)>::empty());
        }
        None
    }
}

/// A decimal digit.
pub open spec fn is_digit(c: char) -> bool {
    '0' <= c && c <= '9'
}

/// The value of a decimal digit.
pub open spec fn digit_val(c: char) -> nat {
    ((c as int) - ('0' as int)) as nat
}

/// The value of a string of decimal digits, most significant first.
pub open spec fn numeral_value(ds: Seq<char>) -> nat
    decreases ds.len(),
{
    if ds.len() == 0 {
        0
    } else {
        numeral_value(ds.drop_last()) * 10 + digit_val(ds.last())
    }
}

/// The digits of a numeral: a single leading plus sign is not one of
/// them.
pub open spec fn numeral_digits(s: Seq<char>) -> Seq<char> {
    if s.len() > 0 && s[0] == '+' {
        s.drop_first()
    } else {
        s
    }
}

/// A string `u32::from_str` accepts: an optional plus sign, then at least
/// one digit, all digits, with a value that fits in 32 bits.
pub open spec fn is_u32_numeral(s: Seq<char>) -> bool {
    let ds = numeral_digits(s);
    &&& ds.len() > 0
    &&& forall|k: int| 0 <= k < ds.len() ==> is_digit(#[trigger] ds[k])
    &&& numeral_value(ds) < 0x1_0000_0000
}

proof fn lemma_numeral_prefix_le(ds: Seq<char>, k: int)
    requires
        0 <= k <= ds.len(),
    ensures
        numeral_value(ds.subrange(0, k)) <= numeral_value(ds),
    decreases ds.len() - k,
{
    if k < ds.len() {
        lemma_numeral_prefix_le(ds, k + 1);
        let a = ds.subrange(0, k);
        let b = ds.subrange(0, k + 1);
        assert(b.drop_last() =~= a);
        assert(numeral_value(b) == numeral_value(a) * 10 + digit_val(b.last()));
    } else {
        assert(ds.subrange(0, k) =~= ds);
    }
}

/// Reads a decimal `u32` as `str::parse::<u32>` does: an optional leading
/// plus sign, then decimal digits; anything else, an empty digit string,
/// or a value past `u32::MAX` is refused.
pub fn parse_u32(s: &str) -> (r: Option<u32>)
    ensures
        r is Some <==> is_u32_numeral(s@),
        r is Some ==> r.unwrap() == numeral_value(numeral_digits(s@)),
{
    let n = s.unicode_len();
    let mut start: usize = 0;
    if n > 0 && s.get_char(0) == '+' {
        start = 1;
    }
    let ghost ds = numeral_digits(s@);
    proof {
        assert(ds =~= s@.subrange(start as int, n as int));
    }
    if start == n {
        return None;
    }
    let mut v: u32 = 0;
    let mut i: usize = start;
    proof {
        assert(s@.subrange(start as int, start as int) =~= Seq::<char>::empty());
    }
    while i < n
        invariant
            start <= i <= n,
            n == s@.len(),
            start <= 1,
            ds == numeral_digits(s@),
            ds == s@.subrange(start as int, n as int),
            forall|k: int| start <= k < i ==> is_digit(#[trigger] s@[k]),
            v == numeral_value(s@.subrange(start as int, i as int)),
        decreases n - i,
    {
        let c = s.get_char(i);
        if c < '0' || c > '9' {
            proof {
                assert(ds.len() == n - start);
                assert(ds[i - start] == s@[i as int]);
                assert(!is_digit(ds[i - start]));
                assert(!is_u32_numeral(s@));
            }
            return None;
        }
        let d = (c as u32) - 48;
        proof {
            let pre = s@.subrange(start as int, i + 1);
            assert(pre.drop_last() =~= s@.subrange(start as int, i as int));
            assert(pre.last() == s@[i as int]);
            assert(digit_val(s@[i as int]) == d);
            assert(numeral_value(pre) == v * 10 + d);
        }
        let next = match v.checked_mul(10) {
            Some(x) => x.checked_add(d),
            None => None,
        };
        match next {
            Some(x) => {
                v = x;
            },
            None => {
                proof {
                    let pre = s@.subrange(start as int, i + 1);
                    assert(numeral_value(pre) > 0xffff_ffff);
                    assert(pre =~= ds.subrange(0, i + 1 - start));
                    lemma_numeral_prefix_le(ds, i + 1 - start);
                    assert(numeral_value(ds) > 0xffff_ffff);
                    assert(!is_u32_numeral(s@));
                }
                return None;
            },
        }
        i = i + 1;
    }
    proof {
        assert(s@.subrange(start as int, i as int) =~= ds);
        assert forall|k: int| 0 <= k < ds.len() implies is_digit(#[trigger] ds[k]) by {
            assert(ds[k] == s@[k + start]);
        }
        assert(is_u32_numeral(s@));
    }
    Some(v)
}

/// The first value of parameter `param`, or the exact complaint that it
/// is missing.
pub fn get_string_param(params: &ProcessParams, param: &str) -> (r: Result<String, PidReadError>)
    ensures
        match lookup_first(params.entries@, param@) {
            Some(val) => r matches Ok(s) && s@ == val,
            None => r matches Err(PidReadError::ParseError(m)) && m@ == missing_msg(param@),
        },
{
    match params.get(param) {
        Some(vals) => {
            if vals.len() > 0 {
                let s = vals[0].clone();
                proof {
                    assert(vals@[0]@ == vals.deep_view()[0]);
                }
                Ok(s)
            } else {
                Err(PidReadError::ParseError(missing_message(param)))
            }
        },
        None => Err(PidReadError::ParseError(missing_message(param))),
    }
}

fn missing_message(param: &str) -> (m: String)
    ensures
        m@ == missing_msg(param@),
{
    let mut m = String::new();
    m.append("missing ");
    m.append(param);
    m.append(" parameter");
    proof {
        assert(m@ =~= missing_msg(param@));
    }
    m
}

fn invalid_message(param: &str) -> (m: String)
    ensures
        m@ == invalid_msg(param@),
{
    let mut m = String::new();
    m.append("invalid ");
    m.append(param);
    m.append(" parameter");
    proof {
        assert(m@ =~= invalid_msg(param@));
    }
    m
}

/// The first value of parameter `param` read as a decimal number, or the
/// exact complaint: missing when the parameter or its value is absent,
/// invalid when the value is not a decimal `u32`.
pub fn get_u32_param(params: &ProcessParams, param: &str) -> (r: Result<u32, PidReadError>)
    ensures
        match lookup_first(params.entries@, param@) {
            Some(val) => {
                if is_u32_numeral(val) {
                    r matches Ok(v) && v == numeral_value(numeral_digits(val))
                } else {
                    r matches Err(PidReadError::ParseError(m)) && m@ == invalid_msg(param@)
                }
            },
            None => r matches Err(PidReadError::ParseError(m)) && m@ == missing_msg(param@),
        },
{
    match get_string_param(params, param) {
        Ok(s) => match parse_u32(s.as_str()) {
            Some(v) => Ok(v),
            None => Err(PidReadError::ParseError(invalid_message(param))),
        },
        Err(e) => Err(e),
    }
}

/// The segments of `s` separated by `sep`, from position `i` on: empty
/// segments included, one more segment than separators.
pub open spec fn split_from(s: Seq<char>, sep: char, i: int) -> Seq<Seq<char>>
    decreases s.len() - i,
{
    if i < 0 || i >= s.len() {
        seq![Seq::<char>::empty()]
    } else if s[i] == sep {
        seq![Seq::<char>::empty()].add(split_from(s, sep, i + 1))
    } else {
        let rest = split_from(s, sep, i + 1);
        seq![seq![s[i]] + rest[0]].add(rest.drop_first())
    }
}

proof fn lemma_split_run(s: Seq<char>, sep: char, i: int, j: int)
    requires
        0 <= i <= j <= s.len(),
        forall|k: int| i <= k < j ==> (#[trigger] s[k]) != sep,
        j == s.len() || s[j] == sep,
    ensures
        split_from(s, sep, i) == if j == s.len() {
            seq![s.subrange(i, j)]
        } else {
            seq![s.subrange(i, j)].add(split_from(s, sep, j + 1))
        },
    decreases j - i,
{
    if i == j {
        assert(s.subrange(i, j) =~= Seq::<char>::empty());
        if j == s.len() {
            assert(split_from(s, sep, i) =~~= seq![s.subrange(i, j)]);
        } else {
            assert(split_from(s, sep, i) =~~= seq![s.subrange(i, j)].add(split_from(s, sep, j + 1)));
        }
    } else {
        lemma_split_run(s, sep, i + 1, j);
        let rest = split_from(s, sep, i + 1);
        assert(split_from(s, sep, i) == seq![seq![s[i]] + rest[0]].add(rest.drop_first()));
        if j == s.len() {
            assert(rest[0] == s.subrange(i + 1, j));
            assert(seq![s[i]] + s.subrange(i + 1, j) =~= s.subrange(i, j));
            assert(rest.drop_first() =~= Seq::<Seq<char>>::empty());
            assert(split_from(s, sep, i) =~~= seq![s.subrange(i, j)]);
        } else {
            assert(rest[0] == s.subrange(i + 1, j));
            assert(seq![s[i]] + s.subrange(i + 1, j) =~= s.subrange(i, j));
            assert(rest.drop_first() =~= split_from(s, sep, j + 1));
            assert(split_from(s, sep, i) =~~= seq![s.subrange(i, j)].add(split_from(s, sep, j + 1)));
        }
    }
}

/// Splits `s` at every occurrence of `sep`, keeping empty segments.
pub fn split_str(s: &str, sep: char) -> (r: Vec<String>)
    ensures
        r.deep_view() == split_from(s@, sep, 0),
        r@.len() >= 1,
{
    let n = s.unicode_len();
    let mut r: Vec<String> = Vec::new();
    let mut i: usize = 0;
    while i <= n
        invariant
            i <= n + 1,
            n == s@.len(),
            i <= n ==> r.deep_view().add(split_from(s@, sep, i as int)) == split_from(s@, sep, 0),
            i > n ==> r.deep_view() == split_from(s@, sep, 0) && r@.len() >= 1,
        decreases n + 1 - i,
    {
        let mut j = i;
        while j < n && s.get_char(j) != sep
            invariant
                i <= j <= n,
                n == s@.len(),
                forall|k: int| i <= k < j ==> (#[trigger] s@[k]) != sep,
            decreases n - j,
        {
            j = j + 1;
        }
        proof {
            lemma_split_run(s@, sep, i as int, j as int);
        }
        let seg = s.substring_char(i, j).to_owned();
        let ghost old_r = r.deep_view();
        r.push(seg);
        proof {
            assert(r.deep_view() =~= old_r.push(seg@));
        }
        if j < n {
            proof {
                assert(old_r.push(seg@).add(split_from(s@, sep, j + 1)) =~= old_r.add(
                    split_from(s@, sep, i as int),
                ));
            }
            i = j + 1;
        } else {
            proof {
                assert(old_r.push(seg@) =~= old_r.add(split_from(s@, sep, i as int)));
            }
            return r;
        }
    }
    r
}

/// One status-file line split at tabs: the first field is the key, the
/// remaining fields are its values.
pub fn parse_status_line(line: &str) -> (r: (String, Vec<String>))
    ensures
        r.0@ == split_from(line@, '\t', 0)[0],
        r.1.deep_view() == split_from(line@, '\t', 0).drop_first(),
{
    let mut segs = split_str(line, '\t');
    let head = segs.remove(0);
    proof {
        assert(head@ == split_from(line@, '\t', 0)[0]);
        assert(segs.deep_view() =~= split_from(line@, '\t', 0).drop_first());
    }
    (head, segs)
}

/// A segment contains a plain space character.
pub open spec fn has_space(t: Seq<char>) -> bool {
    exists|k: int| 0 <= k < t.len() && t[k] == ' '
}

/// A display segment: quoted when it holds a space, bare otherwise.
pub open spec fn quote_seg(t: Seq<char>) -> Seq<char> {
    if has_space(t) {
        seq!['"'] + t + seq!['"']
    } else {
        t
    }
}

/// Segments joined with single spaces, no trailing separator.
pub open spec fn join_sp(segs: Seq<Seq<char>>) -> Seq<char>
    decreases segs.len(),
{
    if segs.len() == 0 {
        Seq::empty()
    } else if segs.len() == 1 {
        segs[0]
    } else {
        segs[0] + seq![' '] + join_sp(segs.drop_first())
    }
}

/// The displayed form of a raw command line: its zero-byte-separated
/// arguments, each quoted when it holds a space, joined with spaces.
pub open spec fn cmdline_of(raw: Seq<char>) -> Seq<char> {
    join_sp(split_from(raw, '\0', 0).map_values(|t: Seq<char>| quote_seg(t)))
}

proof fn lemma_join_sp_push(segs: Seq<Seq<char>>, x: Seq<char>)
    ensures
        join_sp(segs.push(x)) == if segs.len() == 0 {
            x
        } else {
            join_sp(segs) + seq![' '] + x
        },
    decreases segs.len(),
{
    let p = segs.push(x);
    if segs.len() == 0 {
        assert(join_sp(p) == p[0]);
        assert(p[0] == x);
    } else {
        assert(p[0] == segs[0]);
        assert(p.drop_first() =~= segs.drop_first().push(x));
        lemma_join_sp_push(segs.drop_first(), x);
        if segs.len() == 1 {
            assert(join_sp(p) =~= join_sp(segs) + seq![' '] + x);
        } else {
            assert(join_sp(p) =~= join_sp(segs) + seq![' '] + x);
        }
    }
}

fn quote_segment(t: &str) -> (r: String)
    ensures
        r@ == quote_seg(t@),
{
    let n = t.unicode_len();
    let mut k: usize = 0;
    let mut found = false;
    while k < n
        invariant
            k <= n,
            n == t@.len(),
            found == exists|m: int| 0 <= m < k && t@[m] == ' ',
        decreases n - k,
    {
        if t.get_char(k) == ' ' {
            found = true;
        }
        k = k + 1;
    }
    if found {
        let mut r = String::new();
        r.append("\"");
        r.append(t);
        r.append("\"");
        proof {
            reveal_strlit("\"");
            assert("\""@ =~= seq!['"']);
            assert(r@ =~= quote_seg(t@));
        }
        r
    } else {
        proof {
            assert(!has_space(t@));
        }
        t.to_owned()
    }
}

/// Reshapes a raw command line for display: arguments are separated by
/// zero bytes in the raw form; each argument holding a space is quoted;
/// the arguments are joined with spaces.
pub fn parse_cmdline(raw: &str) -> (r: String)
    ensures
        r@ == cmdline_of(raw@),
{
    let segs = split_str(raw, '\0');
    let ghost quoted = split_from(raw@, '\0', 0).map_values(|t: Seq<char>| quote_seg(t));
    let mut out = String::new();
    let mut k: usize = 0;
    proof {
        assert(quoted.subrange(0, 0) =~= Seq::<Seq<char>>::empty());
    }
    while k < segs.len()
        invariant
            k <= segs@.len(),
            segs.deep_view() == split_from(raw@, '\0', 0),
            quoted == split_from(raw@, '\0', 0).map_values(|t: Seq<char>| quote_seg(t)),
            quoted.len() == segs@.len(),
            out@ == join_sp(quoted.subrange(0, k as int)),
        decreases segs@.len() - k,
    {
        let q = quote_segment(segs[k].as_str());
        proof {
            assert(segs@[k as int]@ == segs.deep_view()[k as int]);
            assert(q@ == quoted[k as int]);
        }
        if k > 0 {
            out.append(" ");
        }
        out.append(q.as_str());
        proof {
            reveal_strlit(" ");
            assert(" "@ =~= seq![' ']);
            lemma_join_sp_push(quoted.subrange(0, k as int), quoted[k as int]);
            assert(quoted.subrange(0, k + 1) =~= quoted.subrange(0, k as int).push(
                quoted[k as int],
            ));
            assert(out@ =~= join_sp(quoted.subrange(0, k + 1)));
        }
        k = k + 1;
    }
    proof {
        assert(quoted.subrange(0, k as int) =~= quoted);
    }
    out
}

/// The parameter `key` is present, carries a value, and that value is a
/// decimal `u32`.
pub open spec fn u32_param_ok(entries: Seq<(String, Vec<String>)>, key: Seq<char>) -> bool {
    match lookup_first(entries, key) {
        Some(val) => is_u32_numeral(val),
        None => false,
    }
}

/// The numeric value of the parameter `key`.
pub open spec fn u32_param_val(entries: Seq<(String, Vec<String>)>, key: Seq<char>) -> nat {
    numeral_value(numeral_digits(lookup_first(entries, key).unwrap()))
}

/// The complaint `get_u32_param` raises for the parameter `key`.
pub open spec fn u32_param_err(entries: Seq<(String, Vec<String>)>, key: Seq<char>) -> Seq<char> {
    if lookup_first(entries, key) is None {
        missing_msg(key)
    } else {
        invalid_msg(key)
    }
}

/// The record's state field starts with the zombie letter.
pub open spec fn is_zombie(entries: Seq<(String, Vec<String>)>) -> bool {
    match lookup_first(entries, "State:"@) {
        Some(st) => st.len() > 0 && st[0] == 'Z',
        None => false,
    }
}

/// A value wrapped in square brackets.
pub open spec fn bracketed(s: Seq<char>) -> Seq<char> {
    seq!['['] + s + seq![']']
}

/// The command line a record ends up with: the reshaped raw command line;
/// the bracketed process name when that is empty; and a bracketed zombie
/// note around either when the process is a zombie.
pub open spec fn final_cmdline(entries: Seq<(String, Vec<String>)>, raw: Seq<char>) -> Seq<char> {
    let base = cmdline_of(raw);
    let named = if base.len() == 0 {
        bracketed(lookup_first(entries, "Name:"@).unwrap())
    } else {
        base
    };
    if is_zombie(entries) {
        seq!['['] + named + "] zombie!"@
    } else {
        named
    }
}

/// Everything a record needs is present and readable.
pub open spec fn pid_info_ok(entries: Seq<(String, Vec<String>)>, raw: Seq<char>) -> bool {
    &&& u32_param_ok(entries, "Pid:"@)
    &&& u32_param_ok(entries, "PPid:"@)
    &&& u32_param_ok(entries, "Uid:"@)
    &&& lookup_first(entries, "State:"@) is Some
    &&& (cmdline_of(raw).len() > 0 || lookup_first(entries, "Name:"@) is Some)
}

fn bracket_string(s: &str) -> (r: String)
    ensures
        r@ == bracketed(s@),
{
    let mut r = String::new();
    r.append("[");
    r.append(s);
    r.append("]");
    proof {
        reveal_strlit("[");
        reveal_strlit("]");
        assert("["@ =~= seq!['[']);
        assert("]"@ =~= seq![']']);
        assert(r@ =~= bracketed(s@));
    }
    r
}

/// Assembles one process record from its parsed status parameters and its
/// raw command line. The numeric fields must be present and readable; an
/// empty command line falls back to the bracketed process name; a zombie
/// state is noted on the command line. The first field that cannot be
/// read names the failure, and the record is given up — per-record
/// trouble never goes further than this one record.
pub fn get_pid_info(params: &ProcessParams, raw_cmdline: &str) -> (r: Result<
    ProcessRecord,
    PidReadError,
>)
    ensures
        r is Ok <==> pid_info_ok(params.entries@, raw_cmdline@),
        r matches Ok(rec) ==> {
            &&& rec.pid == u32_param_val(params.entries@, "Pid:"@)
            &&& rec.ppid == u32_param_val(params.entries@, "PPid:"@)
            &&& rec.uid == u32_param_val(params.entries@, "Uid:"@)
            &&& rec.cmdline@ == final_cmdline(params.entries@, raw_cmdline@)
        },
        !u32_param_ok(params.entries@, "Pid:"@) ==> (r matches Err(PidReadError::ParseError(m))
            && m@ == u32_param_err(params.entries@, "Pid:"@)),
        u32_param_ok(params.entries@, "Pid:"@) && !u32_param_ok(params.entries@, "PPid:"@) ==> (
        r matches Err(PidReadError::ParseError(m)) && m@ == u32_param_err(
            params.entries@,
            "PPid:"@,
        )),
        u32_param_ok(params.entries@, "Pid:"@) && u32_param_ok(params.entries@, "PPid:"@)
            && !u32_param_ok(params.entries@, "Uid:"@) ==> (r matches Err(
        PidReadError::ParseError(m)) && m@ == u32_param_err(params.entries@, "Uid:"@)),
        u32_param_ok(params.entries@, "Pid:"@) && u32_param_ok(params.entries@, "PPid:"@)
            && u32_param_ok(params.entries@, "Uid:"@) && lookup_first(
            params.entries@,
            "State:"@,
        ) is None ==> (r matches Err(PidReadError::ParseError(m)) && m@ == missing_msg("State:"@)),
        u32_param_ok(params.entries@, "Pid:"@) && u32_param_ok(params.entries@, "PPid:"@)
            && u32_param_ok(params.entries@, "Uid:"@) && lookup_first(
            params.entries@,
            "State:"@,
        ) is Some && cmdline_of(raw_cmdline@).len() == 0 && lookup_first(
            params.entries@,
            "Name:"@,
        ) is None ==> (r matches Err(PidReadError::ParseError(m)) && m@ == missing_msg("Name:"@)),
{
    let pid = match get_u32_param(params, "Pid:") {
        Ok(v) => v,
        Err(e) => {
            return Err(e);
        },
    };
    let ppid = match get_u32_param(params, "PPid:") {
        Ok(v) => v,
        Err(e) => {
            return Err(e);
        },
    };
    let uid = match get_u32_param(params, "Uid:") {
        Ok(v) => v,
        Err(e) => {
            return Err(e);
        },
    };
    let status = match get_string_param(params, "State:") {
        Ok(v) => v,
        Err(e) => {
            return Err(e);
        },
    };
    let mut cmdline = parse_cmdline(raw_cmdline);
    if cmdline.as_str().is_empty() {
        let name = match get_string_param(params, "Name:") {
            Ok(v) => v,
            Err(e) => {
                return Err(e);
            },
        };
        cmdline = bracket_string(name.as_str());
    }
    let zombie = status.as_str().unicode_len() > 0 && status.as_str().get_char(0) == 'Z';
    if zombie {
        let mut z = String::new();
        z.append("[");
        z.append(cmdline.as_str());
        z.append("] zombie!");
        proof {
            reveal_strlit("[");
            assert("["@ =~= seq!['[']);
            assert(z@ =~= final_cmdline(params.entries@, raw_cmdline@));
        }
        cmdline = z;
    } else {
        proof {
            assert(cmdline@ =~= final_cmdline(params.entries@, raw_cmdline@));
        }
    }
    Ok(ProcessRecord { pid, uid, ppid, cmdline })
}

} // verus!
