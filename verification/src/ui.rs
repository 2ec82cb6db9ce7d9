//! Terminal styling in one place, so the look stays consistent.

use vstd::prelude::*;

use crate::text;
use crate::text::spaces;

verus! {

/// A green check mark.
pub const CHECK: &'static str = "\x1b[32m✓\x1b[0m";

/// `s` between the codes that dim the text and end all styling.
pub open spec fn dimmed(s: Seq<char>) -> Seq<char> {
    "\x1b[2m"@ + s + "\x1b[0m"@
}

/// `s`, dimmed.
pub fn dim(s: &str) -> (r: String)
    ensures
        r@ == dimmed(s@),
{
    "\x1b[2m".to_string().concat(s).concat("\x1b[0m")
}

/// The columns that a row takes up before padding.
pub open spec fn label(branch: Seq<char>, name: Seq<char>, version: Seq<char>) -> Seq<char> {
    if branch.len() == 0 {
        name + " "@ + version
    } else {
        branch + " "@ + name + " "@ + version
    }
}

/// As many spaces as are missing from `used` to `width`.
pub open spec fn padding(width: nat, used: nat) -> Seq<char> {
    spaces(if used < width {
        (width - used) as nat
    } else {
        0
    })
}

/// A row: bright name, dim version and tree branch, padded to `width` columns.
pub open spec fn row(branch: Seq<char>, name: Seq<char>, version: Seq<char>, width: nat) -> Seq<char> {
    let head = if branch.len() == 0 {
        Seq::empty()
    } else {
        dimmed(branch) + " "@
    };
    head + name + " "@ + dimmed(version) + padding(width, label(branch, name, version).len())
}

/// Row label: bright name, dim version and tree branches, padded to `width`
/// visible columns.
pub fn row_label(branch: &str, name: &str, version: &str, width: usize) -> (r: String)
    ensures
        r@ == row(branch@, name@, version@, width as nat),
{
    let shown = if branch.is_empty() {
        name.to_string().concat(" ").concat(version)
    } else {
        branch.to_string().concat(" ").concat(name).concat(" ").concat(version)
    };
    let visible = text::chars_of(shown.as_str()).len();
    let mut out = String::new();
    if !branch.is_empty() {
        out.append(dim(branch).as_str());
        out.append(" ");
        assert(out@ =~= dimmed(branch@) + " "@);
    }
    out.append(name);
    out.append(" ");
    out.append(dim(version).as_str());
    let missing: usize = if visible < width {
        width - visible
    } else {
        0
    };
    out.append(text::blanks(missing).as_str());
    out
}

/// The label of an installed item; a dependency is indented by two columns
/// inside the same width.
pub open spec fn item(name: Seq<char>, version: Seq<char>, width: nat, dep: bool) -> Seq<char> {
    if dep {
        "  "@ + row(Seq::empty(), name, version, if width < 2 {
            0
        } else {
            (width - 2) as nat
        })
    } else {
        row(Seq::empty(), name, version, width)
    }
}

/// Label for an item row; dependencies are indented two columns inside the
/// same field width so that the size and status columns stay aligned.
pub fn item_label(name: &str, version: &str, width: usize, dep: bool) -> (r: String)
    ensures
        r@ == item(name@, version@, width as nat, dep),
{
    proof {
        reveal_strlit("");
        assert(""@ =~= Seq::empty());
    }
    if dep {
        let inner: usize = if width < 2 {
            0
        } else {
            width - 2
        };
        "  ".to_string().concat(row_label("", name, version, inner).as_str())
    } else {
        row_label("", name, version, width)
    }
}

/// How a number of bytes is shown.
pub uninterp spec fn human_size(size: u64) -> Seq<char>;

/// The text of `indicatif::HumanBytes(size)`, which depends on the number
/// alone: a rounded number with a binary unit, such as "1.43 MiB".
#[verifier::external_body]
fn human_bytes(size: u64) -> (r: String)
    ensures
        r@ == human_size(size),
{
    indicatif::HumanBytes(size).to_string()
}

/// The line for an installed formula, given how its size is shown.
pub open spec fn flushed(
    name: Seq<char>,
    version: Seq<char>,
    width: nat,
    size: Seq<char>,
    via: Option<Seq<char>>,
) -> Seq<char> {
    let tail = match via {
        Some(v) => dimmed(" ("@ + v + ")"@),
        None => Seq::empty(),
    };
    "  "@ + item(name, version, width, via is Some) + " "@ + padding(10, size.len()) + size + " "@
        + CHECK@ + tail
}

/// The view of an optional string slice.
pub open spec fn opt_str(v: Option<&str>) -> Option<Seq<char>> {
    match v {
        Some(s) => Some(s@),
        None => None,
    }
}

/// The line for an installed formula, given how its size is shown: aligned to
/// the right in ten columns.
pub fn installed_row(name: &str, version: &str, width: usize, size: &str, via: Option<&str>) -> (r: String)
    ensures
        r@ == flushed(name@, version@, width as nat, size@, opt_str(via)),
{
    let used = text::chars_of(size).len();
    let missing: usize = if used < 10 {
        10 - used
    } else {
        0
    };
    let mut out = "  ".to_string();
    out.append(item_label(name, version, width, via.is_some()).as_str());
    out.append(" ");
    out.append(text::blanks(missing).as_str());
    out.append(size);
    out.append(" ");
    out.append(CHECK);
    if let Some(v) = via {
        let by = " (".to_string().concat(v).concat(")");
        out.append(dim(by.as_str()).as_str());
    }
    assert(out@ =~= flushed(name@, version@, width as nat, size@, opt_str(via)));
    out
}

/// Permanent line flushed into scrollback when a formula is fully installed.
pub fn flushed_row(name: &str, version: &str, width: usize, size: u64, via: Option<&str>) -> (r: String)
    ensures
        r@ == flushed(name@, version@, width as nat, human_size(size), opt_str(via)),
{
    let shown = human_bytes(size);
    installed_row(name, version, width, shown.as_str(), via)
}

/// "formula" for one, "formulae" for any other number.
pub open spec fn formulae_word(n: nat) -> Seq<char> {
    if n == 1 {
        "formula"@
    } else {
        "formulae"@
    }
}

/// "formula" for one, "formulae" for any other number.
pub fn formulae(n: usize) -> (r: &'static str)
    ensures
        r@ == formulae_word(n as nat),
{
    if n == 1 {
        "formula"
    } else {
        "formulae"
    }
}

/// The line after `n` formulae were dealt with in `seconds`.
pub open spec fn summary_line(verb: Seq<char>, n: nat, seconds: Seq<char>) -> Seq<char> {
    CHECK@ + " "@ + verb + " "@ + text::decimal(n) + " "@ + formulae_word(n) + " in "@ + seconds + "s"@
}

/// The line after `n` formulae were dealt with in `seconds`.
pub fn summary(verb: &str, n: usize, seconds: &str) -> (r: String)
    ensures
        r@ == summary_line(verb@, n as nat, seconds@),
{
    CHECK.to_string().concat(" ").concat(verb).concat(" ").concat(text::show(n as u64).as_str()).concat(
        " ",
    ).concat(formulae(n)).concat(" in ").concat(seconds).concat("s")
}

/// What a terminal shows of `s`: all but the escape sequences, each of which
/// goes from an escape character up to the next `m`.
pub open spec fn visible(s: Seq<char>) -> Seq<char>
    decreases s.len(),
{
    if s.len() == 0 {
        s
    } else if s[0] == '\x1b' {
        let end = text::index_in(s, 'm') as int;
        if end < s.len() {
            visible(s.skip(end + 1))
        } else {
            Seq::empty()
        }
    } else {
        seq![s[0]] + visible(s.skip(1))
    }
}

/// Text without an escape character is shown as it is.
proof fn lemma_plain_shown(a: Seq<char>, b: Seq<char>)
    requires
        !a.contains('\x1b'),
    ensures
        visible(a + b) == a + visible(b),
    decreases a.len(),
{
    if a.len() == 0 {
        assert(a + b =~= b);
        assert(a + visible(b) =~= visible(b));
    } else {
        assert(a.contains(a[0]));
        assert((a + b).skip(1) =~= a.skip(1) + b);
        assert(!a.skip(1).contains('\x1b')) by {
            if a.skip(1).contains('\x1b') {
                let k = choose|k: int| 0 <= k < a.skip(1).len() && a.skip(1)[k] == '\x1b';
                assert(a[k + 1] == '\x1b');
            }
        }
        lemma_plain_shown(a.skip(1), b);
        assert(a + visible(b) =~= seq![a[0]] + (a.skip(1) + visible(b)));
    }
}

/// Dimmed text is shown as it is.
proof fn lemma_dimmed_shown(a: Seq<char>, b: Seq<char>)
    requires
        !a.contains('\x1b'),
    ensures
        visible(dimmed(a) + b) == a + visible(b),
{
    reveal_strlit("\x1b[2m");
    reveal_strlit("\x1b[0m");
    let on = "\x1b[2m"@;
    let off = "\x1b[0m"@;
    let s = dimmed(a) + b;
    let t = off + b;
    text::lemma_index_in(s, 'm');
    assert(s[0] == '\x1b' && s[1] == '[' && s[2] == '2' && s[3] == 'm');
    assert(text::index_in(s, 'm') == 3);
    assert(s.skip(4) =~= a + t);
    lemma_plain_shown(a, t);
    text::lemma_index_in(t, 'm');
    assert(t[0] == '\x1b' && t[1] == '[' && t[2] == '0' && t[3] == 'm');
    assert(text::index_in(t, 'm') == 3);
    assert(t.skip(4) =~= b);
}

/// Law: a row takes up `width` columns on the terminal, or as many as its
/// label needs where that is more.
pub proof fn law_rows_are_padded(branch: Seq<char>, name: Seq<char>, version: Seq<char>, width: nat)
    requires
        !branch.contains('\x1b'),
        !name.contains('\x1b'),
        !version.contains('\x1b'),
    ensures
        visible(row(branch, name, version, width)) == label(branch, name, version) + padding(
            width,
            label(branch, name, version).len(),
        ),
{
    reveal_strlit(" ");
    let pad = padding(width, label(branch, name, version).len());
    let rest = name + " "@ + dimmed(version) + pad;
    let tail = " "@ + dimmed(version) + pad;
    assert(rest =~= name + tail);
    assert(!" "@.contains('\x1b'));
    assert(tail =~= " "@ + (dimmed(version) + pad));
    lemma_plain_shown(" "@, dimmed(version) + pad);
    lemma_dimmed_shown(version, pad);
    assert(!pad.contains('\x1b'));
    lemma_plain_shown(pad, Seq::empty());
    assert(pad + Seq::<char>::empty() =~= pad);
    assert(visible(pad) =~= pad);
    lemma_plain_shown(name, tail);
    if branch.len() == 0 {
        assert(row(branch, name, version, width) =~= rest);
        assert(visible(rest) =~= label(branch, name, version) + pad);
    } else {
        assert(row(branch, name, version, width) =~= dimmed(branch) + (" "@ + rest));
        lemma_dimmed_shown(branch, " "@ + rest);
        lemma_plain_shown(" "@, rest);
        assert(visible(row(branch, name, version, width)) =~= label(branch, name, version) + pad);
    }
}

/// Law: all items whose labels fit take up exactly `width` columns, those of
/// dependencies with their indentation, so the columns behind them align.
pub proof fn law_items_align(name: Seq<char>, version: Seq<char>, width: nat, dep: bool)
    requires
        !name.contains('\x1b'),
        !version.contains('\x1b'),
        name.len() + 1 + version.len() + if dep {
            2int
        } else {
            0int
        } <= width,
    ensures
        visible(item(name, version, width, dep)).len() == width,
{
    reveal_strlit(" ");
    reveal_strlit("  ");
    let empty = Seq::<char>::empty();
    assert(!empty.contains('\x1b'));
    if dep {
        law_rows_are_padded(empty, name, version, (width - 2) as nat);
        assert(!"  "@.contains('\x1b'));
        lemma_plain_shown("  "@, row(empty, name, version, (width - 2) as nat));
    } else {
        law_rows_are_padded(empty, name, version, width);
    }
}

/// Law: styled text is the text between the codes that dim it and that end all
/// styling.
pub proof fn law_dimmed_text_is_framed(s: Seq<char>)
    ensures
        dimmed(s) == "\x1b[2m"@ + s + "\x1b[0m"@,
{
}

/// Law: a label is the name and the version, behind the branch where there is
/// one, and padding fills up to the width and never cuts off.
pub proof fn law_labels_name_and_version(
    branch: Seq<char>,
    name: Seq<char>,
    version: Seq<char>,
    width: nat,
    used: nat,
)
    ensures
        label(Seq::empty(), name, version) == name + " "@ + version,
        branch.len() > 0 ==> label(branch, name, version) == branch + " "@ + name + " "@ + version,
        used <= width ==> padding(width, used).len() == width - used,
        used > width ==> padding(width, used).len() == 0,
        forall|i: int| 0 <= i < padding(width, used).len() ==> #[trigger] padding(width, used)[i] == ' ',
{
}

/// Law: a row is the branch, the name and the version, the first and the last of
/// them dimmed, and then the padding.
pub proof fn law_rows_are_styled(branch: Seq<char>, name: Seq<char>, version: Seq<char>, width: nat)
    ensures
        row(Seq::empty(), name, version, width) == name + " "@ + dimmed(version) + padding(
            width,
            (name + " "@ + version).len(),
        ),
        branch.len() > 0 ==> row(branch, name, version, width) == dimmed(branch) + " "@ + name + " "@ + dimmed(
            version,
        ) + padding(width, (branch + " "@ + name + " "@ + version).len()),
        item(name, version, width, false) == row(Seq::empty(), name, version, width),
        width >= 2 ==> item(name, version, width, true) == "  "@ + row(
            Seq::empty(),
            name,
            version,
            (width - 2) as nat,
        ),
{
    assert(row(Seq::empty(), name, version, width) =~= name + " "@ + dimmed(version) + padding(
        width,
        (name + " "@ + version).len(),
    ));
}

/// Law: the line for an installed formula has its label, its size aligned to the
/// right in ten columns, a check mark, and, for a dependency, what brought it in.
pub proof fn law_installed_lines(
    name: Seq<char>,
    version: Seq<char>,
    width: nat,
    size: Seq<char>,
    root: Seq<char>,
)
    ensures
        flushed(name, version, width, size, None) == "  "@ + item(name, version, width, false) + " "@ + padding(
            10,
            size.len(),
        ) + size + " "@ + CHECK@,
        flushed(name, version, width, size, Some(root)) == "  "@ + item(name, version, width, true) + " "@
            + padding(10, size.len()) + size + " "@ + CHECK@ + dimmed(" ("@ + root + ")"@),
{
    assert(flushed(name, version, width, size, None) =~= "  "@ + item(name, version, width, false) + " "@
        + padding(10, size.len()) + size + " "@ + CHECK@);
}

/// Law: one formula is a formula, any other number are formulae, and a summary
/// tells how many there were and how long it took.
pub proof fn law_summaries_count(verb: Seq<char>, n: nat, seconds: Seq<char>)
    ensures
        n == 1 ==> summary_line(verb, n, seconds) == CHECK@ + " "@ + verb + " "@ + text::decimal(n) + " "@
            + "formula"@ + " in "@ + seconds + "s"@,
        n != 1 ==> summary_line(verb, n, seconds) == CHECK@ + " "@ + verb + " "@ + text::decimal(n) + " "@
            + "formulae"@ + " in "@ + seconds + "s"@,
        formulae_word(n) == if n == 1 {
            "formula"@
        } else {
            "formulae"@
        },
{
}

/// Law: an optional text is shown as it is where there is one.
pub proof fn law_optional_texts_are_read_as_they_are(v: Option<&str>)
    ensures
        opt_str(v) is Some <==> v is Some,
        v matches Some(s) ==> opt_str(v) == Some(s@),
{
}

} // verus!
