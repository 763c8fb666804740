//! File metadata across `sudo`: what `stat` and `getent` print, and what modes and owners
//! mean.

use vstd::prelude::*;

use crate::engines;
use crate::numbers;
use crate::text;
use crate::views;

verus! {

broadcast use {crate::views::group_all, crate::views::group_texts};

/// Metadata used to capture and restore ownership and permissions across sudo
/// boundaries.
#[derive(Debug, Clone)]
pub struct SudoMeta {
    pub size: u64,
    pub is_dir: bool,
    /// Permission bits.
    pub mode: u32,
    /// Owner name.
    pub owner: String,
    /// Group name.
    pub group: String,
    /// Numeric user id.
    pub uid: u32,
    /// Numeric group id.
    pub gid: u32,
}

/// The model of a [`SudoMeta`].
#[verifier::ext_equal]
pub struct SudoMetaView {
    pub size: u64,
    pub is_dir: bool,
    pub mode: u32,
    pub owner: Seq<char>,
    pub group: Seq<char>,
    pub uid: u32,
    pub gid: u32,
}

impl View for SudoMeta {
    type V = SudoMetaView;

    open spec fn view(&self) -> SudoMetaView {
        SudoMetaView {
            size: self.size,
            is_dir: self.is_dir,
            mode: self.mode,
            owner: self.owner@,
            group: self.group@,
            uid: self.uid,
            gid: self.gid,
        }
    }
}

// ── Permissions ──────────────────────────────────────────────────────────

/// The bytes of a symbolic permission string, without the type of the file in front.
pub open spec fn perm_bytes(perm: Seq<char>) -> Seq<u8> {
    let b = vstd::utf8::encode_utf8(perm);
    if b.len() >= 10 {
        b.skip(1)
    } else {
        b
    }
}

/// The read, write and execute bits of three characters. `s` and `t` stand for execute
/// too.
pub open spec fn triplet(b: Seq<u8>, i: int) -> int {
    (if b[i] == 114u8 {
        4int
    } else {
        0
    }) + (if b[i + 1] == 119u8 {
        2int
    } else {
        0
    }) + (if b[i + 2] == 120u8 || b[i + 2] == 115u8 || b[i + 2] == 116u8 {
        1int
    } else {
        0
    })
}

/// The permission bits of nine characters, with those for setuid, setgid and sticky.
pub open spec fn mode_bits(b: Seq<u8>) -> int {
    triplet(b, 0) * 0o100 + triplet(b, 3) * 0o10 + triplet(b, 6) + (if b[2] == 115u8 {
        0o4000int
    } else {
        0
    }) + (if b[5] == 115u8 {
        0o2000int
    } else {
        0
    }) + (if b[8] == 116u8 {
        0o1000int
    } else {
        0
    })
}

/// Bytes as a list of numbers in brackets.
pub open spec fn byte_list(b: Seq<u8>) -> Seq<char> {
    "["@ + text::join(b.map_values(|x: u8| numbers::dec(x as nat)), ", "@) + "]"@
}

/// The permission bits that a symbolic permission string stands for.
pub open spec fn mode_of(perm: Seq<char>) -> Result<u32, Seq<char>> {
    let b = perm_bytes(perm);
    if b.len() < 9 {
        Err("perm string too short: "@ + perm)
    } else if 9 < b.len() < 12 {
        Err("perm triplet short: "@ + byte_list(b.skip(9)))
    } else if b.len() >= 12 {
        Err("perm string too long: "@ + perm)
    } else {
        Ok(mode_bits(b) as u32)
    }
}

fn read_triplet(b: &[u8], i: usize) -> (r: u32)
    requires
        i + 2 < b@.len(),
    ensures
        r == triplet(b@, i as int),
        r <= 7,
{
    let read: u32 = if b[i] == 114 {
        4
    } else {
        0
    };
    let write: u32 = if b[i + 1] == 119 {
        2
    } else {
        0
    };
    let execute: u32 = if b[i + 2] == 120 || b[i + 2] == 115 || b[i + 2] == 116 {
        1
    } else {
        0
    };
    read + write + execute
}

/// Convert a symbolic permission string like `drwxr-xr-x` to permission bits. See
/// [`mode_of`].
///
/// Handles setuid (`s` in owner exec), setgid (`s` in group exec), and sticky (`t` in
/// other exec) bits.
pub fn perm_str_to_octal(perm: &str) -> (r: Result<u32, String>)
    ensures
        match (r, mode_of(perm@)) {
            (Ok(a), Ok(b)) => a == b,
            (Err(e), Err(m)) => e@ == m,
            _ => false,
        },
{
    let all = perm.as_bytes();
    let n: usize = all.len();
    let start: usize = if n >= 10 {
        1
    } else {
        0
    };
    let mut bytes: Vec<u8> = Vec::new();
    for i in start..n
        invariant
            n == all@.len(),
            start <= n,
            bytes@ == all@.subrange(start as int, i as int),
    {
        bytes.push(all[i]);
        assert(all@.subrange(start as int, i + 1) =~= all@.subrange(
            start as int,
            i as int,
        ).push(all@[i as int]));
    }
    let b = bytes.as_slice();
    let len: usize = b.len();
    proof {
        assert(b@ =~= perm_bytes(perm@));
    }
    if len < 9 {
        let mut s = text::owned("perm string too short: ");
        s.append(perm);
        return Err(s);
    }
    if len >= 12 {
        let mut s = text::owned("perm string too long: ");
        s.append(perm);
        return Err(s);
    }
    if len > 9 {
        let mut parts: Vec<String> = Vec::new();
        let ghost goal = b@.skip(9).map_values(|x: u8| numbers::dec(x as nat));
        for i in 9..len
            invariant
                len == b@.len(),
                9 <= len,
                goal == b@.skip(9).map_values(|x: u8| numbers::dec(x as nat)),
                views::texts(parts@) == goal.take(i - 9),
        {
            proof {
                views::lemma_take_step(goal, i - 9);
                assert(b@.skip(9)[i - 9] == b@[i as int]);
            }
            parts.push(numbers::decimal(b[i] as u64));
        }
        proof {
            views::lemma_take_all(goal);
        }
        let mut s = text::owned("perm triplet short: ");
        let mut list = text::owned("[");
        list.append(text::joined(parts.as_slice(), ", ").as_str());
        list.append("]");
        s.append(list.as_str());
        return Err(s);
    }
    let special: u32 = (if b[2] == 115 {
        0o4000u32
    } else {
        0
    }) + (if b[5] == 115 {
        0o2000u32
    } else {
        0
    }) + (if b[8] == 116 {
        0o1000u32
    } else {
        0
    });
    Ok(read_triplet(b, 0) * 0o100 + read_triplet(b, 3) * 0o10 + read_triplet(b, 6) + special)
}

// ── stat ─────────────────────────────────────────────────────────────────

/// The number that a text spells, or what is wrong with it.
pub open spec fn number_or_fault(s: Seq<char>, max: int, what: Seq<char>) -> Result<
    int,
    Seq<char>,
> {
    match numbers::parse_unsigned(s, 10, max) {
        Some(n) => Ok(n),
        None => Err(what + numbers::number_fault(s, 10, max)),
    }
}

/// What a line of `stat -c "%s %f %u %g %A %U %G"` says: size, raw mode, user id, group
/// id, permissions, owner, group.
pub open spec fn stat_meta(s: Seq<char>) -> Result<SudoMetaView, Seq<char>> {
    let parts = text::words(s);
    if parts.len() < 7 {
        Err("unexpected stat output: "@ + engines::debug_text(s))
    } else {
        match number_or_fault(parts[0], u64::MAX as int, "stat size parse: "@) {
            Err(m) => Err(m),
            Ok(size) => match number_or_fault(parts[2], u32::MAX as int, "stat uid parse: "@) {
                Err(m) => Err(m),
                Ok(uid) => match number_or_fault(
                    parts[3],
                    u32::MAX as int,
                    "stat gid parse: "@,
                ) {
                    Err(m) => Err(m),
                    Ok(gid) => match mode_of(parts[4]) {
                        Err(m) => Err(m),
                        Ok(mode) => Ok(
                            SudoMetaView {
                                size: size as u64,
                                is_dir: text::has_prefix(parts[4], "d"@),
                                mode,
                                owner: parts[5],
                                group: parts[6],
                                uid: uid as u32,
                                gid: gid as u32,
                            },
                        ),
                    },
                },
            },
        }
    }
}

fn read_number(s: &str, max: u64, what: &str) -> (r: Result<u64, String>)
    ensures
        match (r, number_or_fault(s@, max as int, what@)) {
            (Ok(a), Ok(b)) => a == b && a <= max,
            (Err(e), Err(m)) => e@ == m,
            _ => false,
        },
{
    match numbers::read_unsigned(s, 10, max) {
        Some(n) => Ok(n),
        None => {
            let mut m = text::owned(what);
            m.append(numbers::fault_of(s, 10, max).as_str());
            Err(m)
        },
    }
}

/// Parse the output of `stat`. See [`stat_meta`].
pub fn parse_stat_output(s: &str) -> (r: Result<SudoMeta, String>)
    ensures
        match (r, stat_meta(s@)) {
            (Ok(a), Ok(b)) => a@ == b,
            (Err(e), Err(m)) => e@ == m,
            _ => false,
        },
{
    let parts = text::words_of(s);
    let ghost vp = views::texts(parts@);
    assert(vp.len() == parts@.len());
    if parts.len() < 7 {
        let mut m = text::owned("unexpected stat output: ");
        m.append(engines::debug_quoted(s).as_str());
        return Err(m);
    }
    proof {
        assert(vp[0] == parts@[0]@ && vp[2] == parts@[2]@ && vp[3] == parts@[3]@);
        assert(vp[4] == parts@[4]@ && vp[5] == parts@[5]@ && vp[6] == parts@[6]@);
    }
    let size: u64 = match read_number(parts[0].as_str(), u64::MAX, "stat size parse: ") {
        Ok(n) => n,
        Err(m) => {
            return Err(m);
        },
    };
    let uid: u64 = match read_number(parts[2].as_str(), u32::MAX as u64, "stat uid parse: ") {
        Ok(n) => n,
        Err(m) => {
            return Err(m);
        },
    };
    let gid: u64 = match read_number(parts[3].as_str(), u32::MAX as u64, "stat gid parse: ") {
        Ok(n) => n,
        Err(m) => {
            return Err(m);
        },
    };
    let mode: u32 = match perm_str_to_octal(parts[4].as_str()) {
        Ok(n) => n,
        Err(m) => {
            return Err(m);
        },
    };
    Ok(
        SudoMeta {
            size,
            is_dir: text::starts_with(parts[4].as_str(), "d"),
            mode,
            owner: parts[5].clone(),
            group: parts[6].clone(),
            uid: uid as u32,
            gid: gid as u32,
        },
    )
}

// ── getent ───────────────────────────────────────────────────────────────

/// The name in an entry that `getent` prints: its first field.
pub open spec fn entry_name(line: Seq<char>) -> Seq<char> {
    text::split(line, ':')[0]
}

/// See [`entry_name`].
pub fn name_of_entry(line: &str) -> (r: String)
    ensures
        r@ == entry_name(line@),
{
    let fields = text::split_on(line, ':');
    assert(views::texts(fields@)[0] == fields@[0]@);
    fields[0].clone()
}

/// The numeric id in an entry that `getent` prints: its third field.
pub open spec fn entry_id(line: Seq<char>) -> Option<u32> {
    let fields = text::split(line, ':');
    if fields.len() < 3 {
        None
    } else {
        match numbers::parse_unsigned(fields[2], 10, u32::MAX as int) {
            Some(n) => Some(n as u32),
            None => None,
        }
    }
}

/// See [`entry_id`].
pub fn id_of_entry(line: &str) -> (r: Option<u32>)
    ensures
        r == entry_id(line@),
{
    let fields = text::split_on(line, ':');
    assert(views::texts(fields@).len() == fields@.len());
    if fields.len() < 3 {
        return None;
    }
    assert(views::texts(fields@)[2] == fields@[2]@);
    numbers::read_u32(fields[2].as_str())
}

/// A name, or the numeric id where there is no name.
pub fn name_or_id(name: Option<String>, id: u32) -> (r: String)
    ensures
        r@ == match name {
            Some(n) => n@,
            None => numbers::dec(id as nat),
        },
{
    match name {
        Some(n) => n,
        None => numbers::decimal(id as u64),
    }
}

// ── Modes and owners ─────────────────────────────────────────────────────

/// An owner as it is written, `user` or `user:group`, in its two parts.
pub open spec fn owner_parts(spec: Seq<char>) -> (Seq<char>, Option<Seq<char>>) {
    let i = text::find_char(spec, ':', 0);
    if i < spec.len() {
        (spec.take(i), Some(spec.skip(i + 1)))
    } else {
        (spec, None)
    }
}

/// Split `user` or `user:group`. See [`owner_parts`].
pub fn split_owner(spec: &str) -> (r: (String, Option<String>))
    ensures
        (r.0@, views::opt_text(r.1)) == owner_parts(spec@),
{
    let v = text::chars_of(spec);
    let n: usize = v.len();
    let i: usize = text::position_of(&v, ':', 0);
    if i < n {
        let user = text::string_of(&v, 0, i);
        let group = text::string_of(&v, i + 1, n);
        proof {
            assert(user@ =~= spec@.take(i as int));
            assert(group@ =~= spec@.skip(i + 1));
        }
        (user, Some(group))
    } else {
        (text::owned(spec), None)
    }
}

/// A mode without the `0o` in front of it.
pub open spec fn octal_digits(m: Seq<char>) -> Seq<char>
    decreases m.len(),
{
    if text::has_prefix(m, "0o"@) && m.len() >= 2 {
        octal_digits(m.skip(2))
    } else {
        m
    }
}

/// The permission bits that a mode spells in octal.
pub open spec fn mode_value(m: Seq<char>) -> Result<u32, Seq<char>> {
    let digits = octal_digits(m);
    match numbers::parse_unsigned(digits, 8, u32::MAX as int) {
        Some(n) => Ok(n as u32),
        None => Err(
            "Invalid mode '"@ + m + "': "@ + numbers::number_fault(digits, 8, u32::MAX as int),
        ),
    }
}

/// Parse a mode such as `644` or `0o644`. See [`mode_value`].
pub fn parse_mode(m: &str) -> (r: Result<u32, String>)
    ensures
        match (r, mode_value(m@)) {
            (Ok(a), Ok(b)) => a == b,
            (Err(e), Err(x)) => e@ == x,
            _ => false,
        },
{
    let v = text::chars_of(m);
    let n: usize = v.len();
    let mut i: usize = 0;
    proof {
        reveal_strlit("0o");
        assert(v@.skip(0) =~= v@);
    }
    while n - i >= 2 && v[i] == '0' && v[i + 1] == 'o'
        invariant
            v@ == m@,
            n == v@.len(),
            i <= n,
            "0o"@ =~= seq!['0', 'o'],
            octal_digits(m@) == octal_digits(m@.skip(i as int)),
        decreases n - i,
    {
        proof {
            let s = m@.skip(i as int);
            assert(s.subrange(0, 2) =~= "0o"@);
            assert(s.skip(2) =~= m@.skip(i + 2));
        }
        i = i + 2;
    }
    proof {
        let s = m@.skip(i as int);
        if text::has_prefix(s, "0o"@) && s.len() >= 2 {
            assert(s[0] == s.subrange(0, 2)[0] && s[1] == s.subrange(0, 2)[1]);
            assert(s[0] == m@[i as int] && s[1] == m@[i + 1]);
        }
    }
    let digits = text::string_of(&v, i, n);
    assert(digits@ =~= m@.skip(i as int));
    match numbers::read_unsigned(digits.as_str(), 8, u32::MAX as u64) {
        Some(k) => Ok(k as u32),
        None => {
            let mut s = text::owned("Invalid mode '");
            s.append(m);
            s.append("': ");
            s.append(numbers::fault_of(digits.as_str(), 8, u32::MAX as u64).as_str());
            Err(s)
        },
    }
}

// ── Laws ─────────────────────────────────────────────────────────────────

/// A mode that is written in octal is read back, with `0o` in front or without.
pub proof fn law_mode_read_back(n: u32)
    ensures
        mode_value(numbers::oct(n as nat)) == Ok::<u32, Seq<char>>(n),
        mode_value("0o"@ + numbers::oct(n as nat)) == Ok::<u32, Seq<char>>(n),
{
    let d = numbers::oct(n as nat);
    reveal_strlit("0o");
    numbers::law_number_read_back(n as nat, 8, u32::MAX as int);
    numbers::lemma_numeral(n as nat, 8);
    assert(!text::has_prefix(d, "0o"@)) by {
        if text::has_prefix(d, "0o"@) {
            assert(d.subrange(0, 2)[1] == d[1]);
            assert(numbers::is_radix_digit(d[1], 8));
        }
    }
    let m = "0o"@ + d;
    assert(m.subrange(0, 2) =~= "0o"@);
    assert(m.skip(2) =~= d);
    assert(octal_digits(d) == d);
    assert(octal_digits(m) == d);
}

} // verus!
