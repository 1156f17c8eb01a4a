//! The service manifest: which programs `fs` starts from disk, and what
//! authority each of them gets.
//!
//! One line per service, `#` starts a comment:
//!
//! ```text
//! # name   image           capabilities (comma separated, optional)
//! hello    HELLO.EOF       fs
//! flaky    FLAKY.EOF
//! console  CONSOLE.ELF     fs,control
//! ```
//!
//! The image is a path on the volume; relative names resolve under `/SVC`.
//! Nothing is started unless the manifest lists it.
use vstd::prelude::*;
use vstd::slice::slice_subrange;
use vstd::string::*;

use crate::decimal;
use crate::rt::abi::Cap;
use crate::rt::info;
use crate::text;

verus! {

/// Longest name of a service.
pub const MAX_NAME: usize = 32;

/// One service to start.
pub struct Entry {
    /// Name the supervisor knows the service by.
    pub name: String,
    /// Path of the ELF on the volume.
    pub image: String,
    /// Capability names from the manifest, in order.
    pub caps: Vec<String>,
    /// Manifest line, for error messages.
    pub line: usize,
}

pub struct Parsed {
    pub entries: Vec<Entry>,
    /// `(line, reason)` for every line that was rejected.
    pub errors: Vec<(usize, String)>,
}

/// What a manifest line asks for.
pub struct Wanted {
    pub name: Seq<char>,
    pub image: Seq<char>,
    pub caps: Seq<Seq<char>>,
}

/// What a manifest line means.
pub enum Line {
    /// Nothing but white space and a comment.
    Blank,
    /// Rejected, for this reason.
    Bad(Seq<char>),
    Service(Wanted),
}

/// A name a service may have: up to 32 printable ASCII characters other than the
/// blank.
pub open spec fn good_name(s: Seq<char>) -> bool {
    s.len() <= MAX_NAME && forall|i: int| 0 <= i < s.len() ==> '!' <= #[trigger] s[i] <= '~'
}

/// Whether every part of a list has some text.
pub open spec fn none_empty(parts: Seq<Seq<char>>) -> bool {
    forall|i: int| 0 <= i < parts.len() ==> (#[trigger] parts[i]).len() > 0
}

pub open spec fn meaning(raw: Seq<char>) -> Line {
    let w = text::words(raw.subrange(0, text::index_of(raw, '#', 0)));
    if w.len() == 0 {
        Line::Blank
    } else if w.len() == 1 {
        Line::Bad("expected: name image [caps]"@)
    } else if w.len() > 3 {
        Line::Bad("too many fields"@)
    } else if !good_name(w[0]) {
        Line::Bad("invalid service name"@)
    } else if w.len() == 2 {
        Line::Service(Wanted { name: w[0], image: w[1], caps: Seq::empty() })
    } else if !none_empty(text::split(w[2], ',')) {
        Line::Bad("empty capability name"@)
    } else {
        Line::Service(Wanted { name: w[0], image: w[1], caps: text::split(w[2], ',') })
    }
}

/// What strings hold.
pub open spec fn texts(v: Seq<String>) -> Seq<Seq<char>> {
    Seq::new(v.len(), |i: int| v[i]@)
}

/// Whether an entry asks for what a line does.
pub open spec fn asks(e: Entry, w: Wanted, line: int) -> bool {
    e.name@ == w.name && e.image@ == w.image && texts(e.caps@) == w.caps && e.line == line
}

/// The services that lines list, each with the number of its line.
pub open spec fn listed(ls: Seq<Seq<char>>) -> Seq<(Wanted, int)>
    decreases ls.len(),
{
    if ls.len() == 0 {
        Seq::empty()
    } else {
        match meaning(ls.last()) {
            Line::Service(w) => listed(ls.drop_last()).push((w, ls.len() as int)),
            _ => listed(ls.drop_last()),
        }
    }
}

/// The lines that are rejected, with the reasons.
pub open spec fn rejected(ls: Seq<Seq<char>>) -> Seq<(int, Seq<char>)>
    decreases ls.len(),
{
    if ls.len() == 0 {
        Seq::empty()
    } else {
        match meaning(ls.last()) {
            Line::Bad(why) => rejected(ls.drop_last()).push((ls.len() as int, why)),
            _ => rejected(ls.drop_last()),
        }
    }
}

/// Whether entries are the services that lines list.
pub open spec fn entries_are(v: Seq<Entry>, want: Seq<(Wanted, int)>) -> bool {
    v.len() == want.len() && forall|i: int|
        0 <= i < v.len() ==> asks(#[trigger] v[i], want[i].0, want[i].1)
}

pub open spec fn errors_are(v: Seq<(usize, String)>, want: Seq<(int, Seq<char>)>) -> bool {
    v.len() == want.len() && forall|i: int|
        0 <= i < v.len() ==> (#[trigger] v[i]).0 == want[i].0 && v[i].1@ == want[i].1
}

fn name_ok(s: &[char]) -> (r: bool)
    ensures
        r == good_name(s@),
{
    if s.len() > MAX_NAME {
        return false;
    }
    let mut i: usize = 0;
    while i < s.len()
        invariant
            i <= s@.len(),
            forall|k: int| 0 <= k < i ==> '!' <= #[trigger] s@[k] <= '~',
        decreases s@.len() - i,
    {
        if s[i] < '!' || s[i] > '~' {
            return false;
        }
        i = i + 1;
    }
    true
}

/// What a line asks for: nothing, a service, or the reason to reject it.
fn read_line(raw: &[char], line: usize) -> (r: Result<Option<Entry>, String>)
    ensures
        match meaning(raw@) {
            Line::Blank => r matches Ok(None),
            Line::Bad(why) => r matches Err(s) && s@ == why,
            Line::Service(w) => r matches Ok(Some(e)) && asks(e, w, line as int),
        },
{
    let h: usize = text::find_char(raw, '#');
    let fields: Vec<&[char]> = text::words_of(slice_subrange(raw, 0, h));
    let ghost w = text::words(raw@.subrange(0, h as int));
    assert(text::views(fields@) == w);
    if fields.len() == 0 {
        return Ok(None);
    }
    if fields.len() == 1 {
        return Err("expected: name image [caps]".to_owned());
    }
    if fields.len() > 3 {
        return Err("too many fields".to_owned());
    }
    assert(w[0] == fields@[0]@ && w[1] == fields@[1]@);
    if !name_ok(fields[0]) {
        return Err("invalid service name".to_owned());
    }
    let mut caps: Vec<String> = Vec::new();
    if fields.len() == 3 {
        assert(w[2] == fields@[2]@);
        let list: Vec<&[char]> = text::split_at(fields[2], ',');
        let ghost parts = text::split(w[2], ',');
        let mut i: usize = 0;
        while i < list.len()
            invariant
                i <= list@.len(),
                text::views(list@) == parts,
                texts(caps@) == parts.take(i as int),
                forall|k: int| 0 <= k < i ==> (#[trigger] parts[k]).len() > 0,
                raw@.subrange(0, text::index_of(raw@, '#', 0)) == raw@.subrange(0, h as int),
                w == text::words(raw@.subrange(0, h as int)),
                w.len() == 3,
                good_name(w[0]),
                parts == text::split(w[2], ','),
            decreases list@.len() - i,
        {
            let part: &[char] = list[i];
            assert(parts[i as int] == part@);
            if part.len() == 0 {
                return Err("empty capability name".to_owned());
            }
            let ghost before = caps@;
            caps.push(text::string_of(part));
            assert(texts(caps@) =~= texts(before).push(part@));
            assert(parts.take(i + 1) =~= parts.take(i as int).push(part@));
            i = i + 1;
        }
        assert(parts.take(i as int) =~= parts);
    } else {
        assert(texts(caps@) =~= Seq::empty());
    }
    Ok(
        Some(
            Entry {
                name: text::string_of(fields[0]),
                image: text::string_of(fields[1]),
                caps,
                line,
            },
        ),
    )
}

/// Parse a manifest. Bad lines are reported and skipped; one typo must not
/// keep the rest of the system from booting.
pub fn parse(s: &str) -> (r: Parsed)
    ensures
        entries_are(r.entries@, listed(text::lines(s@))),
        errors_are(r.errors@, rejected(text::lines(s@))),
{
    let all: Vec<char> = text::chars_of(s);
    let ls: Vec<&[char]> = text::lines_of(all.as_slice());
    let ghost want = text::lines(s@);
    let mut entries: Vec<Entry> = Vec::new();
    let mut errors: Vec<(usize, String)> = Vec::new();
    let mut i: usize = 0;
    while i < ls.len()
        invariant
            i <= ls@.len(),
            text::views(ls@) == want,
            entries_are(entries@, listed(want.take(i as int))),
            errors_are(errors@, rejected(want.take(i as int))),
        decreases ls@.len() - i,
    {
        assert(want.take(i + 1).drop_last() =~= want.take(i as int));
        assert(want.take(i + 1).last() == ls@[i as int]@);
        match read_line(ls[i], i + 1) {
            Ok(None) => {},
            Ok(Some(e)) => {
                entries.push(e);
            },
            Err(why) => {
                errors.push((i + 1, why));
            },
        }
        i = i + 1;
    }
    assert(want.take(i as int) =~= want);
    Parsed { entries, errors }
}

/// The services that lines list, whatever their lines.
pub open spec fn services(ls: Seq<Seq<char>>) -> Seq<Wanted> {
    Seq::new(listed(ls).len(), |i: int| listed(ls)[i].0)
}

/// A line that is rejected or blank keeps no other line's service from being
/// listed.
pub proof fn lemma_others_listed(before: Seq<Seq<char>>, line: Seq<char>, after: Seq<Seq<char>>)
    requires
        meaning(line) !is Service,
    ensures
        services(before.push(line) + after) == services(before + after),
    decreases after.len(),
{
    if after.len() == 0 {
        assert(before.push(line) + after =~= before.push(line));
        assert(before + after =~= before);
        assert(before.push(line).drop_last() =~= before);
        assert(services(before.push(line) + after) =~= services(before + after));
    } else {
        let l = after.last();
        let rest = after.drop_last();
        lemma_others_listed(before, line, rest);
        let a = before.push(line) + after;
        let b = before + after;
        assert(a.drop_last() =~= before.push(line) + rest);
        assert(b.drop_last() =~= before + rest);
        assert(a.last() == l && b.last() == l);
        let sa = services(a.drop_last());
        let sb = services(b.drop_last());
        assert(sa == sb);
        if let Line::Service(w) = meaning(l) {
            assert(services(a) =~= sa.push(w));
            assert(services(b) =~= sb.push(w));
        } else {
            assert(services(a) =~= sa);
            assert(services(b) =~= sb);
        }
    }
}

/// A number in decimal, as text.
pub open spec fn decimal_text(n: nat) -> Seq<char> {
    Seq::new(decimal::decimal(n).len(), |i: int| decimal::decimal(n)[i] as char)
}

/// One entry of the capability list: a name and its slot.
pub open spec fn slot_text(name: Seq<char>, slot: int) -> Seq<char> {
    name + "="@ + decimal_text(slot as nat)
}

/// Names with the slots they end up in, in order.
pub open spec fn slots_text(names: Seq<Seq<char>>) -> Seq<char>
    decreases names.len(),
{
    if names.len() == 0 {
        Seq::empty()
    } else if names.len() == 1 {
        slot_text(names[0], 0)
    } else {
        slots_text(names.drop_last()) + ","@ + slot_text(names.last(), names.len() - 1)
    }
}

/// The `caps=` launch argument.
pub open spec fn caps_text(names: Seq<Seq<char>>) -> Seq<char> {
    "caps="@ + slots_text(names)
}

/// What the names of a list are.
pub open spec fn names_of(v: Seq<(String, u32)>) -> Seq<Seq<char>> {
    Seq::new(v.len(), |i: int| v[i].0@)
}

fn number_text(v: u64) -> (r: String)
    ensures
        r@ == decimal_text(v as nat),
{
    let d: Vec<u8> = decimal::digits(v);
    let mut cs: Vec<char> = Vec::new();
    let mut i: usize = 0;
    while i < d.len()
        invariant
            i <= d@.len(),
            d@ == decimal::decimal(v as nat),
            cs@ == decimal_text(v as nat).take(i as int),
        decreases d@.len() - i,
    {
        cs.push(d[i] as char);
        i = i + 1;
        assert(cs@ =~= decimal_text(v as nat).take(i as int));
    }
    assert(cs@ =~= decimal_text(v as nat));
    text::string_of(cs.as_slice())
}

/// The `caps=` launch argument for a service: the slot each granted capability
/// ended up in. The supervisor numbers them in manifest order, and the service
/// looks them up with `granted`.
pub fn caps_arg(granted: &[(String, u32)]) -> (r: String)
    ensures
        r@ == caps_text(names_of(granted@)),
{
    let mut s: String = "caps=".to_owned();
    let ghost names = names_of(granted@);
    let mut i: usize = 0;
    assert(s@ =~= "caps="@ + slots_text(names.take(0)));
    while i < granted.len()
        invariant
            i <= granted@.len(),
            names == names_of(granted@),
            s@ == "caps="@ + slots_text(names.take(i as int)),
        decreases granted@.len() - i,
    {
        let ghost head = "caps="@;
        let ghost done = slots_text(names.take(i as int));
        let ghost s0 = s@;
        if i > 0 {
            s.append(",");
        }
        s.append(granted[i].0.as_str());
        s.append("=");
        let num: String = number_text(i as u64);
        s.append(num.as_str());
        proof {
            let all = names.take(i + 1);
            assert(all.drop_last() =~= names.take(i as int));
            assert(all.last() == granted@[i as int].0@);
            let item = slot_text(all.last(), i as int);
            if i > 0 {
                assert(s@ =~= head + (done + ","@ + item));
            } else {
                assert(done =~= Seq::empty());
                assert(s@ =~= head + item);
            }
            assert(s@ =~= head + slots_text(all));
        }
        i = i + 1;
    }
    assert(names.take(i as int) =~= names);
    s
}

/// The launch arguments of a service: its name and its capabilities.
pub open spec fn launch_text(name: Seq<char>, caps: Seq<Seq<char>>) -> Seq<char> {
    "name="@ + name + "\n"@ + caps_text(caps)
}

/// A name that can be looked up in the launch arguments.
pub open spec fn plain_name(s: Seq<char>) -> bool {
    &&& s.len() > 0
    &&& !text::is_white(s[0])
    &&& !text::is_white(s[s.len() - 1])
    &&& forall|i: int|
        0 <= i < s.len() ==> #[trigger] s[i] != ',' && s[i] != '=' && s[i] != '\n'
}

proof fn lemma_decimal_text(n: nat)
    ensures
        text::all_digits(decimal_text(n)),
        text::digits_value(decimal_text(n)) == n,
    decreases n,
{
    let t = decimal_text(n);
    decimal::lemma_decimal_digits(n);
    assert forall|i: int| 0 <= i < t.len() implies text::is_digit(#[trigger] t[i]) by {
        assert(48 <= decimal::decimal(n)[i] <= 57);
    }
    if n >= 10 {
        lemma_decimal_text(n / 10);
        assert(t.drop_last() =~= decimal_text(n / 10));
        assert(t.last() == (48 + n % 10) as char);
    } else {
        assert(t.drop_last() =~= Seq::empty());
        assert(t.last() == (48 + n) as char);
        assert(text::digits_value(t.drop_last()) == 0);
    }
}

/// Splitting off the last part.
proof fn lemma_split_last(a: Seq<char>, b: Seq<char>, sep: char)
    requires
        forall|i: int| 0 <= i < b.len() ==> #[trigger] b[i] != sep,
    ensures
        text::split(a.push(sep) + b, sep) == text::split(a, sep).push(b),
    decreases a.len(),
{
    let s = a.push(sep) + b;
    let e = text::index_of(a, sep, 0);
    text::lemma_index_of(a, sep, 0);
    assert forall|k: int| 0 <= k < e implies #[trigger] s[k] != sep by {
        assert(s[k] == a[k]);
    }
    if e < a.len() {
        assert(s[e] == a[e]);
        text::lemma_index_is(s, sep, 0, e);
        let a1 = a.subrange(e + 1, a.len() as int);
        assert(s.subrange(e + 1, s.len() as int) =~= a1.push(sep) + b);
        assert(s.subrange(0, e) =~= a.subrange(0, e));
        lemma_split_last(a1, b, sep);
        assert(text::split(s, sep) =~= seq![a.subrange(0, e)] + text::split(a1, sep).push(b));
        assert(text::split(s, sep) =~= text::split(a, sep).push(b));
    } else {
        assert(s[e] == sep);
        text::lemma_index_is(s, sep, 0, e);
        assert(s.subrange(0, e) =~= a);
        assert(s.subrange(e + 1, s.len() as int) =~= b);
        text::lemma_index_is(b, sep, 0, b.len() as int);
        assert(text::split(b, sep) =~= seq![b]);
        assert(text::split(s, sep) =~= seq![a] + seq![b]);
    }
}

/// The slots of a list, apart.
spec fn slot_list(names: Seq<Seq<char>>) -> Seq<Seq<char>> {
    Seq::new(names.len(), |i: int| slot_text(names[i], i))
}

proof fn lemma_slot_text(name: Seq<char>, slot: int)
    requires
        plain_name(name),
        slot >= 0,
    ensures
        forall|i: int|
            0 <= i < slot_text(name, slot).len() ==> #[trigger] slot_text(name, slot)[i] != ','
                && slot_text(name, slot)[i] != '\n',
        slot_text(name, slot).len() > 0,
        !text::is_white(slot_text(name, slot)[0]),
        !text::is_white(slot_text(name, slot).last()),
        info::key_value(slot_text(name, slot)) == Some((name, decimal_text(slot as nat))),
{
    reveal_strlit("=");
    let t = slot_text(name, slot);
    let d = decimal_text(slot as nat);
    lemma_decimal_text(slot as nat);
    assert forall|i: int| 0 <= i < t.len() implies #[trigger] t[i] != ',' && t[i] != '\n' by {
        if i < name.len() {
            assert(t[i] == name[i]);
        } else if i > name.len() {
            assert(t[i] == d[i - name.len() - 1]);
            assert(text::is_digit(d[i - name.len() - 1]));
        }
    }
    assert(text::is_digit(d[d.len() - 1]));
    assert(text::is_digit(d[0]));
    assert(t.last() == d[d.len() - 1]);
    assert(t[0] == name[0]);
    assert(t[name.len() as int] == '=');
    assert forall|k: int| 0 <= k < name.len() implies #[trigger] t[k] != '=' by {
        assert(t[k] == name[k]);
    }
    text::lemma_index_is(t, '=', 0, name.len() as int);
    assert(t.subrange(0, name.len() as int) =~= name);
    assert(t.subrange(name.len() as int + 1, t.len() as int) =~= d);
    text::lemma_trim_same(name);
    text::lemma_trim_same(d);
}

proof fn lemma_slots_text(names: Seq<Seq<char>>)
    requires
        names.len() > 0,
        forall|i: int| 0 <= i < names.len() ==> plain_name(#[trigger] names[i]),
    ensures
        slots_text(names).len() > 0,
        forall|i: int| 0 <= i < slots_text(names).len() ==> #[trigger] slots_text(names)[i] != '\n',
        !text::is_white(slots_text(names)[0]),
        !text::is_white(slots_text(names).last()),
        text::split(slots_text(names), ',') == slot_list(names),
    decreases names.len(),
{
    reveal_strlit(",");
    let n = names.len() as int;
    let item = slot_text(names[n - 1], n - 1);
    lemma_slot_text(names[n - 1], n - 1);
    if n == 1 {
        text::lemma_index_is(item, ',', 0, item.len() as int);
        assert(text::split(item, ',') =~= slot_list(names));
    } else {
        let rest = names.drop_last();
        assert forall|i: int| 0 <= i < rest.len() implies plain_name(#[trigger] rest[i]) by {
            assert(plain_name(names[i]));
        }
        lemma_slots_text(rest);
        let a = slots_text(rest);
        let t = slots_text(names);
        assert(t =~= a.push(',') + item);
        lemma_split_last(a, item, ',');
        assert(text::split(t, ',') =~= slot_list(names));
        assert forall|i: int| 0 <= i < t.len() implies #[trigger] t[i] != '\n' by {
            if i < a.len() {
                assert(t[i] == a[i]);
            } else if i > a.len() {
                assert(t[i] == item[i - a.len() - 1]);
            }
        }
        assert(t[0] == a[0]);
        assert(t.last() == item.last());
    }
}

proof fn lemma_value_at(pairs: Seq<Seq<char>>, names: Seq<Seq<char>>, i: int, k: int)
    requires
        0 <= k <= i < names.len(),
        pairs == slot_list(names),
        forall|j: int| 0 <= j < names.len() ==> plain_name(#[trigger] names[j]),
        forall|j: int| 0 <= j < i ==> #[trigger] names[j] != names[i],
    ensures
        info::value_of(pairs, names[i], k) == Some(decimal_text(i as nat)),
    decreases i - k,
{
    assert(plain_name(names[k]));
    lemma_slot_text(names[k], k);
    assert(pairs[k] == slot_text(names[k], k));
    if k < i {
        assert(names[k] != names[i]);
        lemma_value_at(pairs, names, i, k + 1);
    }
}

/// The `caps` argument is found in the launch arguments, as it was put there.
proof fn lemma_caps_arg(name: Seq<char>, caps: Seq<Seq<char>>)
    requires
        good_name(name),
        forall|k: int| 0 <= k < caps.len() ==> plain_name(#[trigger] caps[k]),
    ensures
        info::arg_in(launch_text(name, caps), "caps"@) == Some(slots_text(caps)),
{
    reveal_strlit("name=");
    reveal_strlit("caps=");
    reveal_strlit("caps");
    reveal_strlit("\n");
    let s = launch_text(name, caps);
    let first = "name="@ + name;
    let c = caps_text(caps);
    let items = slots_text(caps);
    if caps.len() > 0 {
        lemma_slots_text(caps);
    }
    assert(s =~= first.push('\n') + c);
    assert forall|k: int| 0 <= k < first.len() implies #[trigger] s[k] != '\n' by {
        if k >= 5 {
            assert(s[k] == name[k - 5]);
        }
    }
    text::lemma_index_is(s, '\n', 0, first.len() as int);
    assert(s.subrange(0, first.len() as int) =~= first);
    assert(s.subrange(first.len() as int + 1, s.len() as int) =~= c);
    if name.len() > 0 {
        assert(first.last() == name[name.len() - 1]);
    }
    assert(text::chomp(first) == first);
    assert forall|k: int| 0 <= k < c.len() implies #[trigger] c[k] != '\n' by {
        if k >= 5 {
            assert(c[k] == items[k - 5]);
        }
    }
    text::lemma_index_is(c, '\n', 0, c.len() as int);
    let ls = text::lines(s);
    assert(text::lines(c) =~= seq![c]);
    assert(ls =~= seq![first, c]);
    text::lemma_index_is(first, '=', 0, 4);
    assert(first.subrange(0, 4) =~= seq!['n', 'a', 'm', 'e']);
    text::lemma_trim_same(first.subrange(0, 4));
    assert((info::key_value(first)->0).0[0] == 'n');
    text::lemma_index_is(c, '=', 0, 4);
    assert(c.subrange(0, 4) =~= "caps"@);
    text::lemma_trim_same(c.subrange(0, 4));
    assert(c.subrange(5, c.len() as int) =~= items);
    text::lemma_trim_same(items);
    assert(info::value_of(ls, "caps"@, 1) == Some(items));
}

/// A service finds every capability it was started with: looking up a name in
/// the launch arguments gives the place of that name in the manifest's list,
/// which is the slot the supervisor put the capability in.
pub proof fn lemma_granted_found(name: Seq<char>, caps: Seq<Seq<char>>, i: int)
    requires
        0 <= i < caps.len() <= u32::MAX,
        good_name(name),
        forall|k: int| 0 <= k < caps.len() ==> plain_name(#[trigger] caps[k]),
        forall|k: int| 0 <= k < i ==> #[trigger] caps[k] != caps[i],
    ensures
        info::granted_in(launch_text(name, caps), caps[i]) == Some(Cap(i as u32)),
{
    lemma_caps_arg(name, caps);
    lemma_slots_text(caps);
    lemma_value_at(slot_list(caps), caps, i, 0);
    lemma_decimal_text(i as nat);
    let d = decimal_text(i as nat);
    assert(text::is_digit(d[0]));
}

proof fn lemma_no_value(pairs: Seq<Seq<char>>, names: Seq<Seq<char>>, want: Seq<char>, k: int)
    requires
        0 <= k <= names.len(),
        pairs == slot_list(names),
        forall|j: int| 0 <= j < names.len() ==> plain_name(#[trigger] names[j]) && names[j] != want,
    ensures
        info::value_of(pairs, want, k) is None,
    decreases names.len() - k,
{
    if k < names.len() {
        assert(plain_name(names[k]));
        lemma_slot_text(names[k], k);
        assert(pairs[k] == slot_text(names[k], k));
        lemma_no_value(pairs, names, want, k + 1);
    }
}

/// And it finds no other: a name that the manifest does not list for the service
/// stands for nothing.
pub proof fn lemma_unlisted_not_found(name: Seq<char>, caps: Seq<Seq<char>>, want: Seq<char>)
    requires
        good_name(name),
        forall|k: int| 0 <= k < caps.len() ==> plain_name(#[trigger] caps[k]) && caps[k] != want,
    ensures
        info::granted_in(launch_text(name, caps), want) is None,
{
    lemma_caps_arg(name, caps);
    if caps.len() > 0 {
        lemma_slots_text(caps);
        lemma_no_value(slot_list(caps), caps, want, 0);
    } else {
        let none = Seq::<char>::empty();
        text::lemma_index_is(none, ',', 0, 0);
        text::lemma_index_is(none, '=', 0, 0);
        let pairs = text::split(none, ',');
        assert(pairs =~= seq![none]);
        assert(info::key_value(none) is None);
        assert(info::value_of(pairs, want, 1) is None);
    }
}

proof fn lemma_first_words(name: Seq<char>, image: Seq<char>)
    requires
        name.len() > 0,
        image.len() > 0,
        forall|i: int| 0 <= i < name.len() ==> !text::is_white(#[trigger] name[i]),
        forall|i: int| 0 <= i < image.len() ==> !text::is_white(#[trigger] image[i]),
    ensures
        text::words(name + seq![' '] + image) == seq![name, image],
{
    let none = Seq::<char>::empty();
    text::lemma_words(none, name, ' ', image);
    text::lemma_words(none, image, ' ', none);
    assert(none + name + seq![' '] + image =~= name + seq![' '] + image);
    assert(none + image =~= image);
    assert(seq![name] + seq![image] =~= seq![name, image]);
}

/// A line with a name and a path asks for a service that gets nothing, and what
/// follows a `#` does not count.
pub proof fn lemma_plain_line(name: Seq<char>, image: Seq<char>, comment: Seq<char>)
    requires
        1 <= name.len() <= 32,
        image.len() > 0,
        forall|i: int| 0 <= i < name.len() ==> '!' <= #[trigger] name[i] <= '~' && name[i] != '#',
        forall|i: int| 0 <= i < image.len() ==> !text::is_white(#[trigger] image[i]) && image[i] != '#',
    ensures
        meaning(name + seq![' '] + image) == Line::Service(Wanted { name, image, caps: Seq::empty() }),
        meaning(name + seq![' '] + image + seq!['#'] + comment) == Line::Service(
            Wanted { name, image, caps: Seq::empty() },
        ),
        meaning(seq!['#'] + comment) is Blank,
        meaning(name) is Bad,
{
    let line = name + seq![' '] + image;
    assert forall|i: int| 0 <= i < name.len() implies !text::is_white(#[trigger] name[i]) by {
        text::lemma_white(name[i]);
    }
    lemma_first_words(name, image);
    let n = line.len() as int;
    assert forall|k: int| 0 <= k < n implies #[trigger] line[k] != '#' by {
        if k < name.len() {
            assert(line[k] == name[k]);
        } else if k > name.len() {
            assert(line[k] == image[k - name.len() - 1]);
        }
    }
    text::lemma_index_is(line, '#', 0, n);
    assert(line.subrange(0, n) =~= line);
    let long = line + seq!['#'] + comment;
    assert forall|k: int| 0 <= k < n implies #[trigger] long[k] != '#' by {
        assert(long[k] == line[k]);
    }
    text::lemma_index_is(long, '#', 0, n);
    assert(long.subrange(0, n) =~= line);
    assert(good_name(name));
    let only = seq!['#'] + comment;
    text::lemma_index_is(only, '#', 0, 0);
    assert(only.subrange(0, 0) =~= Seq::<char>::empty());
    text::lemma_words(Seq::empty(), name, ' ', Seq::empty());
    assert(Seq::<char>::empty() + name =~= name);
    text::lemma_index_is(name, '#', 0, name.len() as int);
    assert(name.subrange(0, name.len() as int) =~= name);
}

/// A third word lists the capabilities, separated by commas.
pub proof fn lemma_line_with_caps(name: Seq<char>, image: Seq<char>, caps: Seq<char>)
    requires
        1 <= name.len() <= 32,
        image.len() > 0,
        caps.len() > 0,
        forall|i: int| 0 <= i < name.len() ==> '!' <= #[trigger] name[i] <= '~' && name[i] != '#',
        forall|i: int| 0 <= i < image.len() ==> !text::is_white(#[trigger] image[i]) && image[i] != '#',
        forall|i: int| 0 <= i < caps.len() ==> !text::is_white(#[trigger] caps[i]) && caps[i] != '#',
    ensures
        ({
            let parts = text::split(caps, ',');
            let line = name + seq![' '] + (image + seq![' '] + caps);
            &&& (forall|i: int| 0 <= i < parts.len() ==> (#[trigger] parts[i]).len() > 0) ==> meaning(line)
                == Line::Service(Wanted { name, image, caps: parts })
            &&& forall|i: int| 0 <= i < parts.len() && (#[trigger] parts[i]).len() == 0 ==> meaning(line) is Bad
        }),
{
    let none = Seq::<char>::empty();
    let tail = image + seq![' '] + caps;
    let line = name + seq![' '] + tail;
    assert forall|i: int| 0 <= i < name.len() implies !text::is_white(#[trigger] name[i]) by {
        text::lemma_white(name[i]);
    }
    lemma_first_words(image, caps);
    text::lemma_words(none, name, ' ', tail);
    assert(none + name + seq![' '] + tail =~= line);
    assert(text::words(line) =~= seq![name, image, caps]);
    let n = line.len() as int;
    assert forall|k: int| 0 <= k < n implies #[trigger] line[k] != '#' by {
        if k < name.len() {
            assert(line[k] == name[k]);
        } else if k > name.len() {
            let j = k - name.len() - 1;
            assert(line[k] == tail[j]);
            if j < image.len() {
                assert(tail[j] == image[j]);
            } else if j > image.len() {
                assert(tail[j] == caps[j - image.len() - 1]);
            }
        }
    }
    text::lemma_index_is(line, '#', 0, n);
    assert(line.subrange(0, n) =~= line);
    assert(good_name(name));
}

/// The services are listed in the order of their lines, each with the number of its
/// line, counted from one; so are the reasons for those that are rejected.
pub proof fn lemma_listed_in_order(ls: Seq<Seq<char>>, line: Seq<char>)
    ensures
        ({
            let all = ls.push(line);
            let n = all.len() as int;
            match meaning(line) {
                Line::Service(w) => listed(all) == listed(ls) + seq![(w, n)] && rejected(all) == rejected(ls),
                Line::Bad(why) => listed(all) == listed(ls) && rejected(all) == rejected(ls) + seq![(n, why)],
                Line::Blank => listed(all) == listed(ls) && rejected(all) == rejected(ls),
            }
        }),
        listed(Seq::empty()).len() == 0,
        rejected(Seq::empty()).len() == 0,
{
    let all = ls.push(line);
    assert(all.drop_last() =~= ls);
    if let Line::Service(w) = meaning(line) {
        assert(listed(all) =~= listed(ls) + seq![(w, all.len() as int)]);
    }
    if let Line::Bad(why) = meaning(line) {
        assert(rejected(all) =~= rejected(ls) + seq![(all.len() as int, why)]);
    }
}

} // verus!
