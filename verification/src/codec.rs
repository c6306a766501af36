//! The command codec: a self-delimiting, text-tagged record format.
//!
//! A record is a tag character (`S` for `Set`, `R` for `Remove`) followed by
//! one or two fields.  A field is its text with `;` and `\` escaped by a
//! leading `\`, terminated by an unescaped `;`.  Records survive
//! concatenation and can be decoded from a stream, reporting the offset
//! after each record.

use vstd::prelude::*;
use vstd::string::*;

verus! {

/// A store command: assignment of a value to a key, or deletion of a key.
#[derive(Debug, Clone)]
pub enum Command {
    Put { key: String, value: String },
    Remove { key: String },
}

/// The mathematical form of a command: key and value as character sequences.
pub enum CommandView {
    Put { key: Seq<char>, value: Seq<char> },
    Remove { key: Seq<char> },
}

impl View for Command {
    type V = CommandView;

    open spec fn view(&self) -> CommandView {
        match self {
            Command::Put { key, value } => (CommandView::Put { key: key@, value: value@ }),
            Command::Remove { key } => (CommandView::Remove { key: key@ }),
        }
    }
}

impl Command {
    /// Builds a `Set` command.
    pub fn set(key: String, value: String) -> (c: Command)
        ensures
            c@ == (CommandView::Put { key: key@, value: value@ }),
    {
        Command::Put { key, value }
    }

    /// Builds a `Remove` command.
    pub fn remove(key: String) -> (c: Command)
        ensures
            c@ == (CommandView::Remove { key: key@ }),
    {
        Command::Remove { key }
    }
}

/// The escape sequence for one character of a field.
pub open spec fn esc_char(c: char) -> Seq<char> {
    if c == ';' || c == '\\' {
        seq!['\\', c]
    } else {
        seq![c]
    }
}

/// A field's text with every `;` and `\` escaped.
pub open spec fn esc(s: Seq<char>) -> Seq<char>
    decreases s.len(),
{
    if s.len() == 0 {
        Seq::empty()
    } else {
        esc_char(s[0]) + esc(s.drop_first())
    }
}

/// The encoding of one field: its escaped text plus the terminator.
pub open spec fn enc_str(s: Seq<char>) -> Seq<char> {
    esc(s) + seq![';']
}

/// The encoding of one command record.
pub open spec fn enc_cmd(c: CommandView) -> Seq<char> {
    match c {
        CommandView::Put { key, value } => seq!['S'] + enc_str(key) + enc_str(value),
        CommandView::Remove { key } => seq!['R'] + enc_str(key),
    }
}

/// Decodes one field starting at `pos`: the field's text and the offset
/// just past its terminator.  Rejects truncated input and stray escapes.
pub open spec fn dec_str(s: Seq<char>, pos: int) -> Option<(Seq<char>, int)>
    decreases s.len() - pos,
{
    if pos < 0 || pos >= s.len() {
        None
    } else if s[pos] == ';' {
        Some((Seq::empty(), pos + 1))
    } else if s[pos] == '\\' {
        if pos + 1 < s.len() && (s[pos + 1] == ';' || s[pos + 1] == '\\') {
            match dec_str(s, pos + 2) {
                Some(r) => Some((seq![s[pos + 1]] + r.0, r.1)),
                None => None,
            }
        } else {
            None
        }
    } else {
        match dec_str(s, pos + 1) {
            Some(r) => Some((seq![s[pos]] + r.0, r.1)),
            None => None,
        }
    }
}

/// Decodes one command record starting at `pos`.
pub open spec fn dec_cmd(s: Seq<char>, pos: int) -> Option<(CommandView, int)> {
    if 0 <= pos < s.len() {
        if s[pos] == 'S' {
            match dec_str(s, pos + 1) {
                Some(kr) => match dec_str(s, kr.1) {
                    Some(vr) => Some(
                        (CommandView::Put { key: kr.0, value: vr.0 }, vr.1),
                    ),
                    None => None,
                },
                None => None,
            }
        } else if s[pos] == 'R' {
            match dec_str(s, pos + 1) {
                Some(kr) => Some((CommandView::Remove { key: kr.0 }, kr.1)),
                None => None,
            }
        } else {
            None
        }
    } else {
        None
    }
}

/// Decodes a whole stream of records from `pos` to the end.
pub open spec fn dec_all(s: Seq<char>, pos: int) -> Option<Seq<CommandView>>
    decreases s.len() - pos,
    when 0 <= pos <= s.len()
    via dec_all_decreases
{
    if pos == s.len() {
        Some(Seq::empty())
    } else {
        match dec_cmd(s, pos) {
            Some(r) => match dec_all(s, r.1) {
                Some(rest) => Some(seq![r.0] + rest),
                None => None,
            },
            None => None,
        }
    }
}

#[via_fn]
proof fn dec_all_decreases(s: Seq<char>, pos: int) {
    if pos != s.len() {
        if dec_cmd(s, pos) is Some {
            lemma_dec_cmd_bounds(s, pos);
        }
    }
}

/// A successful field decode ends strictly past where it started and
/// within the stream.
pub proof fn lemma_dec_str_bounds(s: Seq<char>, pos: int)
    ensures
        dec_str(s, pos) matches Some(r) ==> pos < r.1 <= s.len(),
    decreases s.len() - pos,
{
    if 0 <= pos < s.len() {
        if s[pos] == ';' {
        } else if s[pos] == '\\' {
            if pos + 1 < s.len() && (s[pos + 1] == ';' || s[pos + 1] == '\\') {
                lemma_dec_str_bounds(s, pos + 2);
            }
        } else {
            lemma_dec_str_bounds(s, pos + 1);
        }
    }
}

/// A successful record decode ends strictly past where it started and
/// within the stream.
pub proof fn lemma_dec_cmd_bounds(s: Seq<char>, pos: int)
    ensures
        dec_cmd(s, pos) matches Some(r) ==> pos < r.1 <= s.len(),
{
    if 0 <= pos < s.len() {
        lemma_dec_str_bounds(s, pos + 1);
        if s[pos] == 'S' {
            if let Some(kr) = dec_str(s, pos + 1) {
                lemma_dec_str_bounds(s, kr.1);
            }
        }
    }
}

/// Escaping commutes with appending one character.
pub proof fn lemma_esc_push(t: Seq<char>, c: char)
    ensures
        esc(t.push(c)) == esc(t) + esc_char(c),
    decreases t.len(),
{
    if t.len() == 0 {
        assert(t.push(c) =~= seq![c]);
        assert(t.push(c).drop_first() =~= Seq::<char>::empty());
        assert(esc(Seq::<char>::empty()) =~= Seq::<char>::empty());
        assert(esc(t.push(c)) == esc_char(c) + esc(t.push(c).drop_first()));
        assert(esc(t.push(c)) =~= esc(t) + esc_char(c));
    } else {
        assert(t.push(c).drop_first() =~= t.drop_first().push(c));
        lemma_esc_push(t.drop_first(), c);
        assert(esc_char(t[0]) + (esc(t.drop_first()) + esc_char(c)) =~= (esc_char(t[0])
            + esc(t.drop_first())) + esc_char(c));
    }
}

/// If a slice of `w` equals `a + b`, then its two halves equal `a` and `b`.
pub(crate) proof fn lemma_subrange_split(w: Seq<char>, pos: int, a: Seq<char>, b: Seq<char>)
    requires
        0 <= pos,
        pos + a.len() + b.len() <= w.len(),
        w.subrange(pos, pos + a.len() + b.len()) == a + b,
    ensures
        w.subrange(pos, pos + a.len() as int) == a,
        w.subrange(pos + a.len() as int, pos + a.len() + b.len()) == b,
{
    let ab = a + b;
    let al = a.len() as int;
    let l = a.len() + b.len() as int;
    assert forall|k: int| 0 <= k < a.len() implies w.subrange(pos, pos + al)[k] == a[k] by {
        assert(w.subrange(pos, pos + l)[k] == ab[k]);
    };
    assert(w.subrange(pos, pos + al) =~= a);
    assert forall|k: int| 0 <= k < b.len() implies w.subrange(pos + al, pos + l)[k] == b[k] by {
        assert(w.subrange(pos, pos + l)[al + k] == ab[al + k]);
        assert(ab[al + k] == b[k]);
    };
    assert(w.subrange(pos + al, pos + l) =~= b);
}

/// Decoding a field finds exactly the text whose encoding sits at `pos`,
/// whatever surrounds it.
pub proof fn lemma_dec_enc_str(w: Seq<char>, pos: int, k: Seq<char>)
    requires
        0 <= pos,
        pos + enc_str(k).len() <= w.len(),
        w.subrange(pos, pos + enc_str(k).len() as int) == enc_str(k),
    ensures
        dec_str(w, pos) == Some((k, pos + enc_str(k).len() as int)),
    decreases k.len(),
{
    let e = enc_str(k);
    if k.len() == 0 {
        assert(e =~= seq![';']);
        assert(w[pos] == w.subrange(pos, pos + e.len() as int)[0]);
    } else {
        let k0 = k[0];
        let krest = k.drop_first();
        let erest = enc_str(krest);
        if k0 == ';' || k0 == '\\' {
            let head = seq!['\\', k0];
            assert(e =~= head + erest);
            lemma_subrange_split(w, pos, head, erest);
            assert(w[pos] == w.subrange(pos, pos + 2)[0]);
            assert(w[pos + 1] == w.subrange(pos, pos + 2)[1]);
            lemma_dec_enc_str(w, pos + 2, krest);
            assert(seq![k0] + krest =~= k);
        } else {
            let head = seq![k0];
            assert(e =~= head + erest);
            lemma_subrange_split(w, pos, head, erest);
            assert(w[pos] == w.subrange(pos, pos + 1)[0]);
            lemma_dec_enc_str(w, pos + 1, krest);
            assert(seq![k0] + krest =~= k);
        }
    }
}

/// Decoding a record finds exactly the command whose encoding sits at
/// `pos`, whatever surrounds it.
pub proof fn lemma_dec_enc_cmd(w: Seq<char>, pos: int, c: CommandView)
    requires
        0 <= pos,
        pos + enc_cmd(c).len() <= w.len(),
        w.subrange(pos, pos + enc_cmd(c).len() as int) == enc_cmd(c),
    ensures
        dec_cmd(w, pos) == Some((c, pos + enc_cmd(c).len() as int)),
{
    let e = enc_cmd(c);
    match c {
        CommandView::Put { key, value } => {
            let ek = enc_str(key);
            let ev = enc_str(value);
            assert(e =~= seq!['S'] + (ek + ev));
            lemma_subrange_split(w, pos, seq!['S'], ek + ev);
            assert(w[pos] == w.subrange(pos, pos + 1)[0]);
            lemma_subrange_split(w, pos + 1, ek, ev);
            lemma_dec_enc_str(w, pos + 1, key);
            lemma_dec_enc_str(w, pos + 1 + ek.len() as int, value);
        },
        CommandView::Remove { key } => {
            let ek = enc_str(key);
            assert(e =~= seq!['R'] + ek);
            lemma_subrange_split(w, pos, seq!['R'], ek);
            assert(w[pos] == w.subrange(pos, pos + 1)[0]);
            lemma_dec_enc_str(w, pos + 1, key);
        },
    }
}

/// A decoded field extent re-encodes to exactly the characters it was
/// decoded from: accepted input is canonical.
pub proof fn lemma_dec_str_canon(s: Seq<char>, pos: int)
    ensures
        dec_str(s, pos) matches Some(r) ==> s.subrange(pos, r.1) == enc_str(r.0),
    decreases s.len() - pos,
{
    if 0 <= pos < s.len() {
        lemma_dec_str_bounds(s, pos);
        if s[pos] == ';' {
            assert(s.subrange(pos, pos + 1) =~= enc_str(Seq::<char>::empty()));
        } else if s[pos] == '\\' {
            if pos + 1 < s.len() && (s[pos + 1] == ';' || s[pos + 1] == '\\') {
                lemma_dec_str_canon(s, pos + 2);
                lemma_dec_str_bounds(s, pos + 2);
                if let Some(r) = dec_str(s, pos + 2) {
                    let c = s[pos + 1];
                    let t = seq![c] + r.0;
                    assert(t.drop_first() =~= r.0);
                    assert(esc(t) == esc_char(c) + esc(r.0));
                    assert(s.subrange(pos, r.1) =~= seq!['\\', c] + s.subrange(pos + 2, r.1));
                    assert(enc_str(t) =~= seq!['\\', c] + enc_str(r.0));
                    assert(s.subrange(pos, r.1) =~= enc_str(t));
                }
            }
        } else {
            lemma_dec_str_canon(s, pos + 1);
            lemma_dec_str_bounds(s, pos + 1);
            if let Some(r) = dec_str(s, pos + 1) {
                let c = s[pos];
                let t = seq![c] + r.0;
                assert(t.drop_first() =~= r.0);
                assert(esc(t) == esc_char(c) + esc(r.0));
                assert(s.subrange(pos, r.1) =~= seq![c] + s.subrange(pos + 1, r.1));
                assert(enc_str(t) =~= seq![c] + enc_str(r.0));
                assert(s.subrange(pos, r.1) =~= enc_str(t));
            }
        }
    }
}

/// A decoded record extent re-encodes to exactly the characters it was
/// decoded from.
pub proof fn lemma_dec_cmd_canon(s: Seq<char>, pos: int)
    ensures
        dec_cmd(s, pos) matches Some(r) ==> s.subrange(pos, r.1) == enc_cmd(r.0),
{
    if 0 <= pos < s.len() {
        if s[pos] == 'S' {
            lemma_dec_str_canon(s, pos + 1);
            lemma_dec_str_bounds(s, pos + 1);
            if let Some(kr) = dec_str(s, pos + 1) {
                lemma_dec_str_canon(s, kr.1);
                lemma_dec_str_bounds(s, kr.1);
                if let Some(vr) = dec_str(s, kr.1) {
                    assert(s.subrange(pos, vr.1) =~= seq!['S'] + s.subrange(pos + 1, kr.1)
                        + s.subrange(kr.1, vr.1));
                    assert(s.subrange(pos, vr.1) == enc_cmd(
                        CommandView::Put { key: kr.0, value: vr.0 },
                    ));
                }
            }
        } else if s[pos] == 'R' {
            lemma_dec_str_canon(s, pos + 1);
            lemma_dec_str_bounds(s, pos + 1);
            if let Some(kr) = dec_str(s, pos + 1) {
                assert(s.subrange(pos, kr.1) =~= seq!['R'] + s.subrange(pos + 1, kr.1));
                assert(s.subrange(pos, kr.1) == enc_cmd(CommandView::Remove { key: kr.0 }));
            }
        }
    }
}

/// Appending characters after a stream does not change what an earlier
/// successful field decode found.
pub proof fn lemma_dec_str_append(s: Seq<char>, pos: int, ext: Seq<char>)
    requires
        dec_str(s, pos) is Some,
    ensures
        dec_str(s + ext, pos) == dec_str(s, pos),
    decreases s.len() - pos,
{
    if 0 <= pos < s.len() {
        if s[pos] == ';' {
        } else if s[pos] == '\\' {
            if pos + 1 < s.len() && (s[pos + 1] == ';' || s[pos + 1] == '\\') {
                lemma_dec_str_append(s, pos + 2, ext);
            }
        } else {
            lemma_dec_str_append(s, pos + 1, ext);
        }
    }
}

/// Appending characters after a stream does not change what an earlier
/// successful record decode found.
pub proof fn lemma_dec_cmd_append(s: Seq<char>, pos: int, ext: Seq<char>)
    requires
        dec_cmd(s, pos) is Some,
    ensures
        dec_cmd(s + ext, pos) == dec_cmd(s, pos),
{
    if 0 <= pos < s.len() {
        if s[pos] == 'S' {
            lemma_dec_str_append(s, pos + 1, ext);
            if let Some(kr) = dec_str(s, pos + 1) {
                lemma_dec_str_append(s, kr.1, ext);
            }
        } else if s[pos] == 'R' {
            lemma_dec_str_append(s, pos + 1, ext);
        }
    }
}

/// Appending one record's encoding to a well-formed stream appends
/// exactly that command to what the stream decodes to.
pub proof fn lemma_dec_all_push(s: Seq<char>, pos: int, c: CommandView)
    requires
        0 <= pos <= s.len(),
        dec_all(s, pos) is Some,
    ensures
        dec_all(s + enc_cmd(c), pos) matches Some(cs2) ==> dec_all(s, pos) matches Some(cs)
            && cs2 == cs.push(c),
        dec_all(s + enc_cmd(c), pos) is Some,
    decreases s.len() - pos,
{
    let w = s + enc_cmd(c);
    let e = enc_cmd(c);
    if pos == s.len() {
        assert(w.subrange(pos, pos + e.len() as int) =~= e);
        lemma_dec_enc_cmd(w, pos, c);
        assert(dec_all(w, pos + e.len() as int) == Some(Seq::<CommandView>::empty()));
        if let Some(cs) = dec_all(s, pos) {
            assert(cs =~= Seq::<CommandView>::empty());
            assert(seq![c] + Seq::<CommandView>::empty() =~= cs.push(c));
        }
    } else {
        if let Some(r) = dec_cmd(s, pos) {
            lemma_dec_cmd_append(s, pos, e);
            lemma_dec_cmd_bounds(s, pos);
            lemma_dec_all_push(s, r.1, c);
            if let Some(rest) = dec_all(s, r.1) {
                if let Some(rest2) = dec_all(w, r.1) {
                    assert(seq![r.0] + rest2 =~= (seq![r.0] + rest).push(c));
                }
            }
        }
    }
}


/// The prefix `p` prepended to a field-decode outcome.
pub open spec fn dec_str_prepend(p: Seq<char>, r: Option<(Seq<char>, int)>) -> Option<
    (Seq<char>, int),
> {
    match r {
        Some(t) => Some((p + t.0, t.1)),
        None => None,
    }
}

proof fn lemma_dec_str_prepend_compose(a: Seq<char>, b: Seq<char>, r: Option<(Seq<char>, int)>)
    ensures
        dec_str_prepend(a, dec_str_prepend(b, r)) == dec_str_prepend(a + b, r),
{
    match r {
        Some(t) => {
            assert(a + (b + t.0) =~= (a + b) + t.0);
        },
        None => {},
    }
}

/// Collects the characters of a string slice into a vector.
pub fn str_to_chars(s: &str) -> (v: Vec<char>)
    ensures
        v@ == s@,
{
    let n = s.unicode_len();
    let mut v: Vec<char> = Vec::new();
    let mut i: usize = 0;
    while i < n
        invariant
            n == s@.len(),
            i <= n,
            v@ == s@.take(i as int),
        decreases n - i,
    {
        v.push(s.get_char(i));
        proof {
            assert(s@.take(i as int).push(s@[i as int]) =~= s@.take(i + 1 as int));
        }
        i = i + 1;
    }
    proof {
        assert(s@.take(n as int) =~= s@);
    }
    v
}

/// Relies on `String: FromIterator<char>`: collecting characters yields a
/// string holding exactly those characters.
#[verifier::external_body]
pub fn chars_to_string(v: &Vec<char>) -> (s: String)
    ensures
        s@ == v@,
{
    v.iter().collect()
}

/// Appends the encoding of one field to `out`.
pub(crate) fn append_field(out: &mut Vec<char>, s: &str)
    ensures
        final(out)@ == old(out)@ + enc_str(s@),
{
    let chars = str_to_chars(s);
    let n = chars.len();
    let mut i: usize = 0;
    while i < n
        invariant
            n == chars@.len(),
            chars@ == s@,
            i <= n,
            out@ == old(out)@ + esc(s@.take(i as int)),
        decreases n - i,
    {
        let c = chars[i];
        if c == ';' || c == '\\' {
            out.push('\\');
            out.push(c);
        } else {
            out.push(c);
        }
        proof {
            lemma_esc_push(s@.take(i as int), s@[i as int]);
            assert(s@.take(i as int).push(s@[i as int]) =~= s@.take(i + 1 as int));
            assert(old(out)@ + esc(s@.take(i as int)) + esc_char(s@[i as int]) =~= old(out)@
                + esc(s@.take(i + 1 as int)));
        }
        i = i + 1;
    }
    out.push(';');
    proof {
        assert(s@.take(n as int) =~= s@);
        assert(old(out)@ + esc(s@) + seq![';'] =~= old(out)@ + enc_str(s@));
    }
}

/// Appends the encoding of one command record to `out`.
pub fn encode_command(out: &mut Vec<char>, cmd: &Command)
    ensures
        final(out)@ == old(out)@ + enc_cmd(cmd@),
{
    match cmd {
        Command::Put { key, value } => {
            out.push('S');
            append_field(out, key.as_str());
            append_field(out, value.as_str());
            proof {
                assert(old(out)@ + seq!['S'] + enc_str(key@) + enc_str(value@) =~= old(out)@
                    + enc_cmd(cmd@));
            }
        },
        Command::Remove { key } => {
            out.push('R');
            append_field(out, key.as_str());
            proof {
                assert(old(out)@ + seq!['R'] + enc_str(key@) =~= old(out)@ + enc_cmd(cmd@));
            }
        },
    }
}

/// Decodes one field of `data` starting at `pos`; mirrors `dec_str`.
pub(crate) fn decode_field(data: &Vec<char>, pos: usize) -> (r: Option<(Vec<char>, usize)>)
    ensures
        match r {
            Some(p) => dec_str(data@, pos as int) == Some((p.0@, p.1 as int)),
            None => dec_str(data@, pos as int) is None,
        },
{
    let mut i: usize = pos;
    let mut acc: Vec<char> = Vec::new();
    loop
        invariant
            pos <= i,
            i <= usize::MAX,
            dec_str(data@, pos as int) == dec_str_prepend(acc@, dec_str(data@, i as int)),
        decreases data@.len() - i,
    {
        if i >= data.len() {
            return None;
        }
        let c = data[i];
        if c == ';' {
            proof {
                assert(acc@ + Seq::<char>::empty() =~= acc@);
            }
            return Some((acc, i + 1));
        }
        if c == '\\' {
            if i + 1 < data.len() {
                let c2 = data[i + 1];
                if c2 == ';' || c2 == '\\' {
                    proof {
                        lemma_dec_str_prepend_compose(acc@, seq![c2], dec_str(data@, i + 2));
                        assert(acc@ + seq![c2] =~= acc@.push(c2));
                    }
                    acc.push(c2);
                    i = i + 2;
                } else {
                    return None;
                }
            } else {
                return None;
            }
        } else {
            proof {
                lemma_dec_str_prepend_compose(acc@, seq![c], dec_str(data@, i + 1));
                assert(acc@ + seq![c] =~= acc@.push(c));
            }
            acc.push(c);
            i = i + 1;
        }
    }
}

/// Decodes one command record of `data` starting at `pos`; mirrors
/// `dec_cmd`.
pub fn decode_command(data: &Vec<char>, pos: usize) -> (r: Option<(Command, usize)>)
    ensures
        match r {
            Some(p) => dec_cmd(data@, pos as int) == Some((p.0@, p.1 as int)),
            None => dec_cmd(data@, pos as int) is None,
        },
{
    if pos >= data.len() {
        return None;
    }
    let tag = data[pos];
    if tag == 'S' {
        match decode_field(data, pos + 1) {
            Some((k, q)) => match decode_field(data, q) {
                Some((v, end)) => Some(
                    (Command::Put { key: chars_to_string(&k), value: chars_to_string(&v) }, end),
                ),
                None => None,
            },
            None => None,
        }
    } else if tag == 'R' {
        match decode_field(data, pos + 1) {
            Some((k, q)) => Some((Command::Remove { key: chars_to_string(&k) }, q)),
            None => None,
        }
    } else {
        None
    }
}

} // verus!
