//! chmod semantics: octal ("0755") or symbolic ("u+w", "a+rx", "go-w").

use vstd::prelude::*;

use crate::text;
use crate::text::stripped;

verus! {

/// Why a permission spec is not understood. The spec itself comes last.
pub enum ModeError {
    /// Neither octal nor with a sign in it.
    Unsupported(String),
    /// A permission other than `r`, `w` and `x`.
    Permission(char, String),
    /// A class other than `u`, `g`, `o` and `a`.
    Class(char, String),
}

/// What a `ModeError` says.
pub enum ModeErrorV {
    Unsupported,
    Permission(char),
    Class(char),
}

impl View for ModeError {
    type V = ModeErrorV;

    open spec fn view(&self) -> ModeErrorV {
        match self {
            ModeError::Unsupported(_) => ModeErrorV::Unsupported,
            ModeError::Permission(c, _) => ModeErrorV::Permission(*c),
            ModeError::Class(c, _) => ModeErrorV::Class(*c),
        }
    }
}

impl ModeError {
    /// The permission spec that is not understood.
    pub open spec fn subject(self) -> Seq<char> {
        match self {
            ModeError::Unsupported(s) => s@,
            ModeError::Permission(_, s) => s@,
            ModeError::Class(_, s) => s@,
        }
    }

    /// What the user is told.
    pub open spec fn text(self) -> Seq<char> {
        match self {
            ModeError::Unsupported(s) => "unsupported permission spec '"@ + s@ + "'"@,
            ModeError::Permission(c, s) => "unsupported permission char '"@ + seq![c] + "' in '"@ + s@ + "'"@,
            ModeError::Class(c, s) => "unsupported permission class '"@ + seq![c] + "' in '"@ + s@ + "'"@,
        }
    }

    /// What the user is told.
    pub fn message(&self) -> (r: String)
        ensures
            r@ == self.text(),
    {
        let (head, c, s) = match self {
            ModeError::Unsupported(s) => {
                return "unsupported permission spec '".to_string().concat(s.as_str()).concat("'");
            },
            ModeError::Permission(c, s) => ("unsupported permission char '", *c, s),
            ModeError::Class(c, s) => ("unsupported permission class '", *c, s),
        };
        let mut r = head.to_string();
        r.push(c);
        assert(r@ =~= head@ + seq![c]);
        r.concat("' in '").concat(s.as_str()).concat("'")
    }
}

/// The number that octal digits stand for; none where there is another
/// character among them.
pub open spec fn octal_number(s: Seq<char>) -> Option<nat>
    decreases s.len(),
{
    if s.len() == 0 {
        Some(0)
    } else {
        match octal_number(s.drop_last()) {
            Some(n) if '0' <= s.last() && s.last() <= '7' => Some(
                8 * n + (s.last() as nat - '0' as nat) as nat,
            ),
            _ => None,
        }
    }
}

/// `s` without the `0o`s at its start.
pub open spec fn without_radix(s: Seq<char>) -> Seq<char>
    decreases s.len(),
{
    if s.len() >= 2 && text::has_prefix(s, "0o"@) {
        without_radix(s.skip(2))
    } else {
        s
    }
}

/// The octal number that a permission spec is: one or more octal digits, with
/// a plus sign and any number of `0o`s allowed before them, that fit in 32
/// bits.
pub open spec fn octal(s: Seq<char>) -> Option<u32> {
    let t = without_radix(s);
    let digits = match stripped(t, "+"@) {
        Some(d) => d,
        None => t,
    };
    match octal_number(digits) {
        Some(n) if digits.len() > 0 && n <= u32::MAX => Some(n as u32),
        _ => None,
    }
}

/// The bits of a permission within its class.
pub open spec fn permission(c: char) -> Option<u32> {
    if c == 'r' {
        Some(4)
    } else if c == 'w' {
        Some(2)
    } else if c == 'x' {
        Some(1)
    } else {
        None
    }
}

/// The bits of a permission in the place of a class.
pub open spec fn class_bits(w: char, bits: u32) -> Option<u32> {
    if w == 'u' {
        Some(bits << 6)
    } else if w == 'g' {
        Some(bits << 3)
    } else if w == 'o' {
        Some(bits)
    } else if w == 'a' {
        Some(bits << 6 | bits << 3 | bits)
    } else {
        None
    }
}

/// The bits of a permission in the places of several classes.
pub open spec fn classes_bits(who: Seq<char>, bits: u32) -> Result<u32, ModeErrorV>
    decreases who.len(),
{
    if who.len() == 0 {
        Ok(0)
    } else {
        match classes_bits(who.drop_last(), bits) {
            Err(e) => Err(e),
            Ok(b) => match class_bits(who.last(), bits) {
                Some(c) => Ok(b | c),
                None => Err(ModeErrorV::Class(who.last())),
            },
        }
    }
}

/// The bits of several permissions in the places of several classes.
pub open spec fn symbolic_bits(who: Seq<char>, perms: Seq<char>) -> Result<u32, ModeErrorV>
    decreases perms.len(),
{
    if perms.len() == 0 {
        Ok(0)
    } else {
        match symbolic_bits(who, perms.drop_last()) {
            Err(e) => Err(e),
            Ok(b) => match permission(perms.last()) {
                None => Err(ModeErrorV::Permission(perms.last())),
                Some(p) => match classes_bits(who, p) {
                    Err(e) => Err(e),
                    Ok(c) => Ok(b | c),
                },
            },
        }
    }
}

/// The position of the first sign, or the length.
pub open spec fn sign_at(s: Seq<char>) -> nat
    decreases s.len(),
{
    if s.len() == 0 || s[0] == '+' || s[0] == '-' {
        0
    } else {
        1 + sign_at(s.skip(1))
    }
}

/// The mode that a permission spec makes of `current`: an octal spec replaces
/// the permission bits, a symbolic one adds to them or takes from them. No
/// class means all.
pub open spec fn new_mode(current: u32, s: Seq<char>) -> Result<u32, ModeErrorV> {
    match octal(s) {
        Some(oct) => Ok((current & !0o7777u32) | oct),
        None => {
            let at = sign_at(s) as int;
            if at >= s.len() {
                Err(ModeErrorV::Unsupported)
            } else {
                let who = if at == 0 {
                    seq!['a']
                } else {
                    s.take(at)
                };
                match symbolic_bits(who, s.skip(at + 1)) {
                    Err(e) => Err(e),
                    Ok(bits) => Ok(if s[at] == '-' {
                        current & !bits
                    } else {
                        current | bits
                    }),
                }
            }
        },
    }
}

/// The octal number that `spec` is.
fn parse_octal(spec: &str) -> (r: Option<u32>)
    ensures
        r == octal(spec@),
{
    proof {
        reveal_strlit("0o");
        reveal_strlit("+");
        assert("+"@ =~= seq!['+']);
        assert("0o"@ =~= seq!['0', 'o']);
    }
    let cs = text::chars_of(spec);
    let mark = text::chars_of("0o");
    let mut at: usize = 0;
    assert(cs@.skip(0) =~= cs@);
    while text::stands_at(&cs, at, &mark)
        invariant
            mark@ == "0o"@,
            mark@.len() == 2,
            at <= cs.len(),
            without_radix(cs@.skip(at as int)) == without_radix(cs@),
        decreases cs@.len() - at,
    {
        assert(cs@.skip(at as int).skip(2) =~= cs@.skip(at + 2));
        at = at + 2;
    }
    let ghost t = cs@.skip(at as int);
    assert(t == without_radix(cs@));
    if at < cs.len() && cs[at] == '+' {
        assert(t.take(1) =~= "+"@);
        assert(t.skip(1) =~= cs@.skip(at + 1));
        at = at + 1;
    } else {
        assert(!text::has_prefix(t, "+"@)) by {
            if t.len() > 0 {
                assert(t.take(1)[0] == t[0]);
            }
        }
    }
    let ghost digits = cs@.skip(at as int);
    if at == cs.len() {
        return None;
    }
    let mut n: u32 = 0;
    let mut i: usize = at;
    assert(cs@.subrange(at as int, at as int) =~= Seq::empty());
    while i < cs.len()
        invariant
            cs@ == spec@,
            at <= i <= cs@.len(),
            at < cs@.len(),
            digits == cs@.skip(at as int),
            octal_number(cs@.subrange(at as int, i as int)) == Some(n as nat),
            octal(spec@) == match octal_number(digits) {
                Some(v) if v <= u32::MAX => Some(v as u32),
                _ => None,
            },
        decreases cs@.len() - i,
    {
        let c = cs[i];
        proof {
            let now = cs@.subrange(at as int, i + 1);
            assert(now.drop_last() =~= cs@.subrange(at as int, i as int));
            assert(now.last() == c);
            lemma_octal_prefix(digits, i + 1 - at);
            assert(digits.take(i + 1 - at) =~= now);
        }
        if c < '0' || c > '7' {
            return None;
        }
        let d: u32 = c as u32 - 48;
        if n > 0x1fff_ffff {
            return None;
        }
        n = 8 * n + d;
        i = i + 1;
    }
    assert(cs@.subrange(at as int, i as int) =~= digits);
    Some(n)
}

/// A number is at least the number that its first digits stand for.
proof fn lemma_octal_prefix(s: Seq<char>, k: int)
    requires
        0 <= k <= s.len(),
    ensures
        octal_number(s) matches Some(n) ==> octal_number(s.take(k)) matches Some(m) && m <= n,
    decreases s.len(),
{
    if k < s.len() {
        lemma_octal_prefix(s.drop_last(), k);
        assert(s.drop_last().take(k) =~= s.take(k));
    } else {
        assert(s.take(k) =~= s);
    }
}

/// The bits of a permission in the places of several classes.
fn bits_for(who: &[char], per: u32, spec: &str) -> (r: Result<u32, ModeError>)
    requires
        per == 1 || per == 2 || per == 4,
    ensures
        match classes_bits(who@, per) {
            Ok(b) => r == Ok::<u32, ModeError>(b),
            Err(e) => r matches Err(x) && x@ == e && x.subject() == spec@,
        },
{
    let mut bits: u32 = 0;
    for i in 0..who.len()
        invariant
            per == 1 || per == 2 || per == 4,
            classes_bits(who@.take(i as int), per) == Ok::<u32, ModeErrorV>(bits),
    {
        let w = who[i];
        proof {
            let now = who@.take(i + 1);
            assert(now.drop_last() =~= who@.take(i as int));
            assert(now.last() == w);
            lemma_classes_prefix(who@, per, i + 1);
        }
        let more: u32 = if w == 'u' {
            per << 6
        } else if w == 'g' {
            per << 3
        } else if w == 'o' {
            per
        } else if w == 'a' {
            per << 6 | per << 3 | per
        } else {
            return Err(ModeError::Class(w, spec.to_string()));
        };
        bits = bits | more;
    }
    assert(who@.take(who@.len() as int) =~= who@);
    Ok(bits)
}

/// An error among the first classes is the error of all.
proof fn lemma_classes_prefix(who: Seq<char>, per: u32, k: int)
    requires
        0 <= k <= who.len(),
    ensures
        classes_bits(who.take(k), per) is Err ==> classes_bits(who, per) == classes_bits(
            who.take(k),
            per,
        ),
    decreases who.len(),
{
    if k < who.len() {
        lemma_classes_prefix(who.drop_last(), per, k);
        assert(who.drop_last().take(k) =~= who.take(k));
    } else {
        assert(who.take(k) =~= who);
    }
}

/// An error among the first permissions is the error of all.
proof fn lemma_symbolic_prefix(who: Seq<char>, perms: Seq<char>, k: int)
    requires
        0 <= k <= perms.len(),
    ensures
        symbolic_bits(who, perms.take(k)) is Err ==> symbolic_bits(who, perms) == symbolic_bits(
            who,
            perms.take(k),
        ),
    decreases perms.len(),
{
    if k < perms.len() {
        lemma_symbolic_prefix(who, perms.drop_last(), k);
        assert(perms.drop_last().take(k) =~= perms.take(k));
    } else {
        assert(perms.take(k) =~= perms);
    }
}

/// The bits of several permissions in the places of several classes.
fn bits_of(who: &[char], perms: &[char], spec: &str) -> (r: Result<u32, ModeError>)
    ensures
        match symbolic_bits(who@, perms@) {
            Ok(b) => r == Ok::<u32, ModeError>(b),
            Err(e) => r matches Err(x) && x@ == e && x.subject() == spec@,
        },
{
    let mut bits: u32 = 0;
    for i in 0..perms.len()
        invariant
            symbolic_bits(who@, perms@.take(i as int)) == Ok::<u32, ModeErrorV>(bits),
    {
        let c = perms[i];
        proof {
            let now = perms@.take(i + 1);
            assert(now.drop_last() =~= perms@.take(i as int));
            assert(now.last() == c);
            lemma_symbolic_prefix(who@, perms@, i + 1);
        }
        let per: u32 = if c == 'r' {
            4
        } else if c == 'w' {
            2
        } else if c == 'x' {
            1
        } else {
            return Err(ModeError::Permission(c, spec.to_string()));
        };
        match bits_for(who, per, spec) {
            Ok(more) => {
                bits = bits | more;
            },
            Err(e) => {
                return Err(e);
            },
        }
    }
    assert(perms@.take(perms@.len() as int) =~= perms@);
    Ok(bits)
}

/// The mode that a permission spec makes of `current`.
pub fn apply_mode(current: u32, spec: &str) -> (r: Result<u32, ModeError>)
    ensures
        match new_mode(current, spec@) {
            Ok(m) => r == Ok::<u32, ModeError>(m),
            Err(e) => r matches Err(x) && x@ == e && x.subject() == spec@,
        },
{
    if let Some(oct) = parse_octal(spec) {
        return Ok((current & !0o7777u32) | oct);
    }
    let cs = text::chars_of(spec);
    let mut at: usize = 0;
    assert(cs@.skip(0) =~= cs@);
    while at < cs.len() && cs[at] != '+' && cs[at] != '-'
        invariant
            at <= cs@.len(),
            at + sign_at(cs@.skip(at as int)) == sign_at(cs@),
        decreases cs@.len() - at,
    {
        assert(cs@.skip(at as int).skip(1) =~= cs@.skip(at + 1));
        at = at + 1;
    }
    if at == cs.len() {
        return Err(ModeError::Unsupported(spec.to_string()));
    }
    let all: [char; 1] = ['a'];
    assert(all@ =~= seq!['a']);
    let who: &[char] = if at == 0 {
        &all
    } else {
        vstd::slice::slice_subrange(cs.as_slice(), 0, at)
    };
    assert(at > 0 ==> who@ =~= spec@.take(at as int));
    let perms = vstd::slice::slice_subrange(cs.as_slice(), at + 1, cs.len());
    assert(perms@ =~= spec@.skip(at + 1));
    match bits_of(who, perms, spec) {
        Err(e) => Err(e),
        Ok(bits) => Ok(
            if cs[at] == '-' {
                current & !bits
            } else {
                current | bits
            },
        ),
    }
}

/// The bits of permissions and classes are permission bits.
proof fn lemma_classes_low(who: Seq<char>, per: u32)
    requires
        per <= 7,
    ensures
        classes_bits(who, per) matches Ok(b) ==> b & !0o777u32 == 0,
    decreases who.len(),
{
    if who.len() == 0 {
        assert(0u32 & !0o777u32 == 0) by (bit_vector);
    } else {
        lemma_classes_low(who.drop_last(), per);
        if let Ok(b) = classes_bits(who.drop_last(), per) {
            if let Some(c) = class_bits(who.last(), per) {
                assert(per <= 7 ==> (per << 6) & !0o777u32 == 0) by (bit_vector);
                assert(per <= 7 ==> (per << 3) & !0o777u32 == 0) by (bit_vector);
                assert(per <= 7 ==> per & !0o777u32 == 0) by (bit_vector);
                assert(per <= 7 ==> (per << 6 | per << 3 | per) & !0o777u32 == 0) by (bit_vector);
                assert(b & !0o777u32 == 0 && c & !0o777u32 == 0 ==> (b | c) & !0o777u32 == 0)
                    by (bit_vector);
            }
        }
    }
}

proof fn lemma_symbolic_low(who: Seq<char>, perms: Seq<char>)
    ensures
        symbolic_bits(who, perms) matches Ok(b) ==> b & !0o777u32 == 0,
    decreases perms.len(),
{
    if perms.len() == 0 {
        assert(0u32 & !0o777u32 == 0) by (bit_vector);
    } else {
        lemma_symbolic_low(who, perms.drop_last());
        if let Some(p) = permission(perms.last()) {
            lemma_classes_low(who, p);
            if let Ok(b) = symbolic_bits(who, perms.drop_last()) {
                if let Ok(c) = classes_bits(who, p) {
                    assert(b & !0o777u32 == 0 && c & !0o777u32 == 0 ==> (b | c) & !0o777u32 == 0)
                        by (bit_vector);
                }
            }
        }
    }
}

/// Law: a permission spec changes permission bits only, provided that an octal
/// one names no other bits but such as are set already.
pub proof fn law_only_permission_bits_change(current: u32, s: Seq<char>)
    requires
        octal(s) matches Some(oct) ==> oct & !0o7777u32 & !current == 0,
    ensures
        new_mode(current, s) matches Ok(m) ==> m & !0o7777u32 == current & !0o7777u32,
{
    match octal(s) {
        Some(oct) => {
            assert(oct & !0o7777u32 & !current == 0 ==> ((current & !0o7777u32) | oct) & !0o7777u32 == current
                & !0o7777u32) by (bit_vector);
        },
        None => {
            let at = sign_at(s) as int;
            if at < s.len() {
                let who = if at == 0 {
                    seq!['a']
                } else {
                    s.take(at)
                };
                lemma_symbolic_low(who, s.skip(at + 1));
                if let Ok(bits) = symbolic_bits(who, s.skip(at + 1)) {
                    assert(bits & !0o777u32 == 0 ==> (current & !bits) & !0o7777u32 == current & !0o7777u32)
                        by (bit_vector);
                    assert(bits & !0o777u32 == 0 ==> (current | bits) & !0o7777u32 == current & !0o7777u32)
                        by (bit_vector);
                }
            }
        },
    }
}

/// The bit of the permission `p` for the class `w`.
pub open spec fn bit_for(w: char, p: char) -> u32 {
    if w == 'u' && p == 'r' {
        0o400u32
    } else if w == 'u' && p == 'w' {
        0o200u32
    } else if w == 'u' && p == 'x' {
        0o100u32
    } else if w == 'g' && p == 'r' {
        0o040u32
    } else if w == 'g' && p == 'w' {
        0o020u32
    } else if w == 'g' && p == 'x' {
        0o010u32
    } else if w == 'o' && p == 'r' {
        0o004u32
    } else if w == 'o' && p == 'w' {
        0o002u32
    } else if w == 'o' && p == 'x' {
        0o001u32
    } else {
        0u32
    }
}

/// One of the three classes.
pub open spec fn is_class(w: char) -> bool {
    w == 'u' || w == 'g' || w == 'o'
}

/// One of the three permissions.
pub open spec fn is_permission(p: char) -> bool {
    p == 'r' || p == 'w' || p == 'x'
}

/// Which bits a permission has in the place of a class.
proof fn lemma_class_bits(c: char, q: char, w: char, p: char)
    requires
        is_class(c) || c == 'a',
        is_permission(q),
        is_class(w),
        is_permission(p),
    ensures
        permission(q) is Some,
        class_bits(c, permission(q)->0) matches Some(b) && b & bit_for(w, p) == if q == p && (c == w || c
            == 'a') {
            bit_for(w, p)
        } else {
            0
        },
{
    assert((4u32 << 6) & 0o400u32 == 0o400u32
        && (4u32 << 6) & 0o200u32 == 0u32
        && (4u32 << 6) & 0o100u32 == 0u32
        && (4u32 << 6) & 0o040u32 == 0u32
        && (4u32 << 6) & 0o020u32 == 0u32
        && (4u32 << 6) & 0o010u32 == 0u32
        && (4u32 << 6) & 0o004u32 == 0u32
        && (4u32 << 6) & 0o002u32 == 0u32
        && (4u32 << 6) & 0o001u32 == 0u32
        && (2u32 << 6) & 0o400u32 == 0u32
        && (2u32 << 6) & 0o200u32 == 0o200u32
        && (2u32 << 6) & 0o100u32 == 0u32
        && (2u32 << 6) & 0o040u32 == 0u32
        && (2u32 << 6) & 0o020u32 == 0u32
        && (2u32 << 6) & 0o010u32 == 0u32
        && (2u32 << 6) & 0o004u32 == 0u32
        && (2u32 << 6) & 0o002u32 == 0u32
        && (2u32 << 6) & 0o001u32 == 0u32
        && (1u32 << 6) & 0o400u32 == 0u32
        && (1u32 << 6) & 0o200u32 == 0u32
        && (1u32 << 6) & 0o100u32 == 0o100u32
        && (1u32 << 6) & 0o040u32 == 0u32
        && (1u32 << 6) & 0o020u32 == 0u32
        && (1u32 << 6) & 0o010u32 == 0u32
        && (1u32 << 6) & 0o004u32 == 0u32
        && (1u32 << 6) & 0o002u32 == 0u32
        && (1u32 << 6) & 0o001u32 == 0u32
        && (4u32 << 3) & 0o400u32 == 0u32
        && (4u32 << 3) & 0o200u32 == 0u32
        && (4u32 << 3) & 0o100u32 == 0u32
        && (4u32 << 3) & 0o040u32 == 0o040u32
        && (4u32 << 3) & 0o020u32 == 0u32
        && (4u32 << 3) & 0o010u32 == 0u32
        && (4u32 << 3) & 0o004u32 == 0u32
        && (4u32 << 3) & 0o002u32 == 0u32
        && (4u32 << 3) & 0o001u32 == 0u32
        && (2u32 << 3) & 0o400u32 == 0u32
        && (2u32 << 3) & 0o200u32 == 0u32
        && (2u32 << 3) & 0o100u32 == 0u32
        && (2u32 << 3) & 0o040u32 == 0u32
        && (2u32 << 3) & 0o020u32 == 0o020u32
        && (2u32 << 3) & 0o010u32 == 0u32
        && (2u32 << 3) & 0o004u32 == 0u32
        && (2u32 << 3) & 0o002u32 == 0u32
        && (2u32 << 3) & 0o001u32 == 0u32
        && (1u32 << 3) & 0o400u32 == 0u32
        && (1u32 << 3) & 0o200u32 == 0u32
        && (1u32 << 3) & 0o100u32 == 0u32
        && (1u32 << 3) & 0o040u32 == 0u32
        && (1u32 << 3) & 0o020u32 == 0u32
        && (1u32 << 3) & 0o010u32 == 0o010u32
        && (1u32 << 3) & 0o004u32 == 0u32
        && (1u32 << 3) & 0o002u32 == 0u32
        && (1u32 << 3) & 0o001u32 == 0u32
        && 4u32 & 0o400u32 == 0u32
        && 4u32 & 0o200u32 == 0u32
        && 4u32 & 0o100u32 == 0u32
        && 4u32 & 0o040u32 == 0u32
        && 4u32 & 0o020u32 == 0u32
        && 4u32 & 0o010u32 == 0u32
        && 4u32 & 0o004u32 == 0o004u32
        && 4u32 & 0o002u32 == 0u32
        && 4u32 & 0o001u32 == 0u32
        && 2u32 & 0o400u32 == 0u32
        && 2u32 & 0o200u32 == 0u32
        && 2u32 & 0o100u32 == 0u32
        && 2u32 & 0o040u32 == 0u32
        && 2u32 & 0o020u32 == 0u32
        && 2u32 & 0o010u32 == 0u32
        && 2u32 & 0o004u32 == 0u32
        && 2u32 & 0o002u32 == 0o002u32
        && 2u32 & 0o001u32 == 0u32
        && 1u32 & 0o400u32 == 0u32
        && 1u32 & 0o200u32 == 0u32
        && 1u32 & 0o100u32 == 0u32
        && 1u32 & 0o040u32 == 0u32
        && 1u32 & 0o020u32 == 0u32
        && 1u32 & 0o010u32 == 0u32
        && 1u32 & 0o004u32 == 0u32
        && 1u32 & 0o002u32 == 0u32
        && 1u32 & 0o001u32 == 0o001u32
        && (4u32 << 6 | 4u32 << 3 | 4u32) & 0o400u32 == 0o400u32
        && (4u32 << 6 | 4u32 << 3 | 4u32) & 0o200u32 == 0u32
        && (4u32 << 6 | 4u32 << 3 | 4u32) & 0o100u32 == 0u32
        && (4u32 << 6 | 4u32 << 3 | 4u32) & 0o040u32 == 0o040u32
        && (4u32 << 6 | 4u32 << 3 | 4u32) & 0o020u32 == 0u32
        && (4u32 << 6 | 4u32 << 3 | 4u32) & 0o010u32 == 0u32
        && (4u32 << 6 | 4u32 << 3 | 4u32) & 0o004u32 == 0o004u32
        && (4u32 << 6 | 4u32 << 3 | 4u32) & 0o002u32 == 0u32
        && (4u32 << 6 | 4u32 << 3 | 4u32) & 0o001u32 == 0u32
        && (2u32 << 6 | 2u32 << 3 | 2u32) & 0o400u32 == 0u32
        && (2u32 << 6 | 2u32 << 3 | 2u32) & 0o200u32 == 0o200u32
        && (2u32 << 6 | 2u32 << 3 | 2u32) & 0o100u32 == 0u32
        && (2u32 << 6 | 2u32 << 3 | 2u32) & 0o040u32 == 0u32
        && (2u32 << 6 | 2u32 << 3 | 2u32) & 0o020u32 == 0o020u32
        && (2u32 << 6 | 2u32 << 3 | 2u32) & 0o010u32 == 0u32
        && (2u32 << 6 | 2u32 << 3 | 2u32) & 0o004u32 == 0u32
        && (2u32 << 6 | 2u32 << 3 | 2u32) & 0o002u32 == 0o002u32
        && (2u32 << 6 | 2u32 << 3 | 2u32) & 0o001u32 == 0u32
        && (1u32 << 6 | 1u32 << 3 | 1u32) & 0o400u32 == 0u32
        && (1u32 << 6 | 1u32 << 3 | 1u32) & 0o200u32 == 0u32
        && (1u32 << 6 | 1u32 << 3 | 1u32) & 0o100u32 == 0o100u32
        && (1u32 << 6 | 1u32 << 3 | 1u32) & 0o040u32 == 0u32
        && (1u32 << 6 | 1u32 << 3 | 1u32) & 0o020u32 == 0u32
        && (1u32 << 6 | 1u32 << 3 | 1u32) & 0o010u32 == 0o010u32
        && (1u32 << 6 | 1u32 << 3 | 1u32) & 0o004u32 == 0u32
        && (1u32 << 6 | 1u32 << 3 | 1u32) & 0o002u32 == 0u32
        && (1u32 << 6 | 1u32 << 3 | 1u32) & 0o001u32 == 0o001u32) by (bit_vector);
}

/// The bits of several classes.
proof fn lemma_classes_bits(who: Seq<char>, q: char, w: char, p: char)
    requires
        is_permission(q),
        is_class(w),
        is_permission(p),
    ensures
        classes_bits(who, permission(q)->0) is Ok <==> forall|i: int|
            0 <= i < who.len() ==> is_class(#[trigger] who[i]) || who[i] == 'a',
        classes_bits(who, permission(q)->0) matches Ok(b) ==> b & bit_for(w, p) == if q == p && (who.contains(w)
            || who.contains('a')) {
            bit_for(w, p)
        } else {
            0
        },
    decreases who.len(),
{
    let bits = permission(q)->0;
    let m = bit_for(w, p);
    if who.len() == 0 {
        assert(0u32 & m == 0) by (bit_vector);
    } else {
        let init = who.drop_last();
        let c = who.last();
        lemma_classes_bits(init, q, w, p);
        text::lemma_push_contains(init, c);
        assert(init.push(c) =~= who);
        assert(who[who.len() - 1] == c);
        if is_class(c) || c == 'a' {
            lemma_class_bits(c, q, w, p);
            if let Ok(b) = classes_bits(init, bits) {
                let d = class_bits(c, bits)->0;
                assert((b | d) & m == (b & m) | (d & m)) by (bit_vector);
                assert(0u32 | 0u32 == 0 && m | 0u32 == m && 0u32 | m == m && m | m == m) by (bit_vector);
            }
        }
        if forall|i: int| 0 <= i < who.len() ==> is_class(#[trigger] who[i]) || who[i] == 'a' {
            assert forall|i: int| 0 <= i < init.len() implies is_class(#[trigger] init[i]) || init[i] == 'a' by {
                assert(init[i] == who[i]);
            }
        }
        if classes_bits(who, bits) is Ok {
            assert forall|i: int| 0 <= i < who.len() implies is_class(#[trigger] who[i]) || who[i] == 'a' by {
                if i < init.len() {
                    assert(init[i] == who[i]);
                }
            }
        }
    }
}

/// The bits of several permissions.
proof fn lemma_symbolic_bits(who: Seq<char>, perms: Seq<char>, w: char, p: char)
    requires
        is_class(w),
        is_permission(p),
    ensures
        symbolic_bits(who, perms) is Ok <==> (forall|i: int|
            0 <= i < perms.len() ==> is_permission(#[trigger] perms[i])) && (perms.len() > 0 ==> forall|i: int|
            0 <= i < who.len() ==> is_class(#[trigger] who[i]) || who[i] == 'a'),
        symbolic_bits(who, perms) matches Ok(b) ==> b & bit_for(w, p) == if perms.contains(p) && (who.contains(w)
            || who.contains('a')) {
            bit_for(w, p)
        } else {
            0
        },
    decreases perms.len(),
{
    let m = bit_for(w, p);
    if perms.len() == 0 {
        assert(0u32 & m == 0) by (bit_vector);
    } else {
        let init = perms.drop_last();
        let q = perms.last();
        lemma_symbolic_bits(who, init, w, p);
        text::lemma_push_contains(init, q);
        assert(init.push(q) =~= perms);
        assert(perms[perms.len() - 1] == q);
        if is_permission(q) {
            lemma_classes_bits(who, q, w, p);
            if let Ok(b) = symbolic_bits(who, init) {
                if let Ok(d) = classes_bits(who, permission(q)->0) {
                    assert((b | d) & m == (b & m) | (d & m)) by (bit_vector);
                    assert(0u32 | 0u32 == 0 && m | 0u32 == m && 0u32 | m == m && m | m == m) by (bit_vector);
                }
            }
        }
        if forall|i: int| 0 <= i < perms.len() ==> is_permission(#[trigger] perms[i]) {
            assert forall|i: int| 0 <= i < init.len() implies is_permission(#[trigger] init[i]) by {
                assert(init[i] == perms[i]);
            }
        }
        if symbolic_bits(who, perms) is Ok {
            assert forall|i: int| 0 <= i < perms.len() implies is_permission(#[trigger] perms[i]) by {
                if i < init.len() {
                    assert(init[i] == perms[i]);
                }
            }
        }
    }
}

/// An octal number is made of octal digits.
proof fn lemma_octal_digits(s: Seq<char>, i: int)
    requires
        octal_number(s) is Some,
        0 <= i < s.len(),
    ensures
        '0' <= s[i] <= '7',
    decreases s.len(),
{
    if i < s.len() - 1 {
        lemma_octal_digits(s.drop_last(), i);
    }
}

/// Classes, a sign and permissions are not octal.
proof fn lemma_not_octal(who: Seq<char>, sign: char, perms: Seq<char>)
    requires
        forall|i: int| 0 <= i < who.len() ==> !('0' <= #[trigger] who[i] <= '7') && who[i] != '+' && who[i] != '-',
        forall|i: int| 0 <= i < perms.len() ==> !('0' <= #[trigger] perms[i] <= '7'),
        sign == '+' || sign == '-',
    ensures
        octal(who + seq![sign] + perms) is None,
        sign_at(who + seq![sign] + perms) == who.len(),
{
    let s = who + seq![sign] + perms;
    reveal_strlit("0o");
    reveal_strlit("+");
    assert("+"@ =~= seq!['+']);
    assert(s[0] == if who.len() > 0 { who[0] } else { sign });
    if text::has_prefix(s, "0o"@) {
        assert(s.take(2)[0] == s[0]);
    }
    assert(without_radix(s) == s);
    if who.len() == 0 && sign == '+' {
        assert(s.take(1) =~= "+"@);
        assert(s.skip(1) =~= perms);
        if perms.len() > 0 && octal_number(perms) is Some {
            lemma_octal_digits(perms, 0);
        }
    } else {
        if text::has_prefix(s, "+"@) {
            assert(s.take(1)[0] == s[0]);
        }
        if octal_number(s) is Some {
            lemma_octal_digits(s, 0);
        }
    }
    lemma_sign_at(who, seq![sign] + perms);
    assert(who + (seq![sign] + perms) =~= s);
}

/// The first sign stands behind what has none.
proof fn lemma_sign_at(who: Seq<char>, rest: Seq<char>)
    requires
        forall|i: int| 0 <= i < who.len() ==> #[trigger] who[i] != '+' && who[i] != '-',
        rest.len() > 0,
        rest[0] == '+' || rest[0] == '-',
    ensures
        sign_at(who + rest) == who.len(),
    decreases who.len(),
{
    let s = who + rest;
    if who.len() > 0 {
        assert(s[0] == who[0]);
        lemma_sign_at(who.skip(1), rest);
        assert(s.skip(1) =~= who.skip(1) + rest);
    } else {
        assert(s[0] == rest[0]);
    }
}

/// Law: a symbolic permission spec sets, behind a plus sign, or clears, behind a
/// minus sign, exactly the bits of the permissions that it names for the classes
/// that it names; `a`, and no class at all, mean all three. It is an error
/// exactly where it names a permission or, for some permission, a class that
/// there is not.
pub proof fn law_symbolic_modes_change_the_bits_they_name(
    current: u32,
    who: Seq<char>,
    sign: char,
    perms: Seq<char>,
    w: char,
    p: char,
)
    requires
        forall|i: int| 0 <= i < who.len() ==> !('0' <= #[trigger] who[i] <= '7') && who[i] != '+' && who[i] != '-',
        forall|i: int| 0 <= i < perms.len() ==> !('0' <= #[trigger] perms[i] <= '7'),
        sign == '+' || sign == '-',
        is_class(w),
        is_permission(p),
    ensures
        ({
            let s = who + seq![sign] + perms;
            let bit = bit_for(w, p);
            let named = perms.contains(p) && (who.len() == 0 || who.contains(w) || who.contains('a'));
            let known = (forall|i: int| 0 <= i < perms.len() ==> is_permission(#[trigger] perms[i])) && (perms.len()
                > 0 ==> forall|i: int| 0 <= i < who.len() ==> is_class(#[trigger] who[i]) || who[i] == 'a');
            &&& new_mode(current, s) is Ok <==> known
            &&& new_mode(current, s) matches Ok(m) ==> m & bit == if !named {
                current & bit
            } else if sign == '+' {
                bit
            } else {
                0
            }
        }),
{
    let s = who + seq![sign] + perms;
    let m = bit_for(w, p);
    lemma_not_octal(who, sign, perms);
    let n = who.len() as int;
    assert(s[n] == sign);
    assert(s.take(n) =~= who);
    assert(s.skip(n + 1) =~= perms);
    let all = if n == 0 {
        seq!['a']
    } else {
        who
    };
    lemma_symbolic_bits(all, perms, w, p);
    if n == 0 {
        assert(seq!['a'][0] == 'a');
        assert(seq!['a'].contains('a'));
        assert(!who.contains(w) && !who.contains('a'));
    }
    if let Ok(b) = symbolic_bits(all, perms) {
        assert((current | b) & m == (current & m) | (b & m)) by (bit_vector);
        assert((current & !b) & m == (current & m) & !(b & m)) by (bit_vector);
        let x = current & m;
        assert((current & m) | m == m && (current & m) & !m == 0 && x | 0u32 == x && x & !0u32 == x)
            by (bit_vector)
            requires
                x == current & m,
        ;
    }
}

/// Law: octal digits stand for the number that they are in base eight, and an
/// octal permission spec, with or without a leading `0o`, replaces the lower
/// twelve bits and keeps the others.
pub proof fn law_octal_modes_replace_the_permissions(current: u32, digits: Seq<char>, c: char)
    ensures
        octal_number(Seq::empty()) == Some(0nat),
        '0' <= c <= '7' ==> (octal_number(digits) matches Some(n) ==> octal_number(digits.push(c)) == Some(
            (n * 8 + (c as int - '0' as int)) as nat,
        )),
        !('0' <= c <= '7') ==> octal_number(digits.push(c)) is None,
        octal_number(digits) matches Some(n) ==> (digits.len() > 0 && n <= u32::MAX ==> {
            &&& new_mode(current, digits) == Ok::<u32, ModeErrorV>((current & !0o7777u32) | (n as u32))
            &&& new_mode(current, "0o"@ + digits) == new_mode(current, digits)
        }),
{
    assert(digits.push(c).drop_last() =~= digits);
    if octal_number(digits) is Some && digits.len() > 0 {
        reveal_strlit("0o");
        reveal_strlit("+");
        lemma_octal_digits(digits, 0);
        if text::has_prefix(digits, "0o"@) {
            assert(digits.take(2)[1] == digits[1]);
            lemma_octal_digits(digits, 1);
        }
        assert(without_radix(digits) == digits);
        let longer = "0o"@ + digits;
        assert(longer.take(2) =~= "0o"@);
        assert(longer.skip(2) =~= digits);
        if text::has_prefix(digits, "+"@) {
            assert(digits.take(1)[0] == digits[0]);
        }
    }
}

/// Law: a permission spec without a sign that is no octal number is not
/// understood.
pub proof fn law_modes_without_a_sign_are_octal(current: u32, s: Seq<char>)
    requires
        octal(s) is None,
        !s.contains('+'),
        !s.contains('-'),
    ensures
        new_mode(current, s) == Err::<u32, ModeErrorV>(ModeErrorV::Unsupported),
{
    lemma_no_sign(s);
}

proof fn lemma_no_sign(s: Seq<char>)
    requires
        !s.contains('+'),
        !s.contains('-'),
    ensures
        sign_at(s) == s.len(),
    decreases s.len(),
{
    if s.len() > 0 {
        assert(s.contains(s[0]));
        let rest = s.skip(1);
        assert(!rest.contains('+')) by {
            if rest.contains('+') {
                let k = choose|k: int| 0 <= k < rest.len() && rest[k] == '+';
                assert(s[k + 1] == '+');
            }
        }
        assert(!rest.contains('-')) by {
            if rest.contains('-') {
                let k = choose|k: int| 0 <= k < rest.len() && rest[k] == '-';
                assert(s[k + 1] == '-');
            }
        }
        lemma_no_sign(rest);
    }
}

/// Law: what is told of a spec that is not understood names the spec and what is
/// wrong with it.
pub proof fn law_mode_errors_name_the_spec(e: ModeError)
    ensures
        e is Unsupported ==> e.text() == "unsupported permission spec '"@ + e.subject() + "'"@,
        e matches ModeError::Permission(c, _) ==> e.text() == "unsupported permission char '"@ + seq![c] + "' in '"@
            + e.subject() + "'"@ && e@ == ModeErrorV::Permission(c),
        e matches ModeError::Class(c, _) ==> e.text() == "unsupported permission class '"@ + seq![c] + "' in '"@
            + e.subject() + "'"@ && e@ == ModeErrorV::Class(c),
{
}

} // verus!
