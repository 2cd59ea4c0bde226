//! Application launcher: turns XDG desktop entries into spawnable commands,
//! plus a case-insensitive filter over their names.

use vstd::prelude::*;
use crate::text::{
    chars_of, string_from_chars, string_views, trim_chars, trim, seq_eq, eq_ignore_case, eq_ignore_ascii_case, spec_is_whitespace, is_whitespace, to_lowercase, unicode_lower,
    starts_with, occurs_at, contains_seq, starts_with_exec, occurs_at_exec, contains_exec, lex_lt,
    lex_less, lemma_lex_lt_irreflexive, lemma_lex_lt_trans, lemma_lex_lt_total,
};

verus! {

/// A launchable application, as read from a `.desktop` file.
#[derive(Clone, Debug)]
pub struct DesktopEntry {
    /// Desktop file id, e.g. "org.mozilla.firefox.desktop". Used for
    /// de-duplication.
    pub id: String,
    pub name: String,
    pub command: String,
    pub terminal: bool,
}

impl DesktopEntry {
    /// A copy of the entry.
    pub fn duplicate(&self) -> (r: DesktopEntry)
        ensures
            r.id@ == self.id@,
            r.name@ == self.name@,
            r.command@ == self.command@,
            r.terminal == self.terminal,
    {
        DesktopEntry {
            id: self.id.clone(),
            name: self.name.clone(),
            command: self.command.clone(),
            terminal: self.terminal,
        }
    }
}

/// The state of the `Exec=` tokenizer after some prefix of the value.
pub struct ExecScan {
    pub tokens: Seq<Seq<char>>,
    pub current: Seq<char>,
    pub in_quotes: bool,
    /// The previous character was an unconsumed `%`.
    pub percent: bool,
}

/// Field codes that stand for files, URLs, icons or desktop-file paths: the
/// launcher never passes those, so they are dropped.
pub open spec fn is_dropped_code(c: char) -> bool {
    c == 'f' || c == 'F' || c == 'u' || c == 'U' || c == 'i' || c == 'k' || c == 'd' || c == 'D'
        || c == 'n' || c == 'N' || c == 'v' || c == 'm'
}

pub open spec fn exec_step(st: ExecScan, c: char, name: Seq<char>) -> ExecScan {
    if st.percent {
        let cur = if c == '%' {
            st.current.push('%')
        } else if c == 'c' {
            st.current + name
        } else if is_dropped_code(c) {
            st.current
        } else {
            st.current.push(c)
        };
        ExecScan { current: cur, percent: false, ..st }
    } else if c == '"' {
        ExecScan { in_quotes: !st.in_quotes, ..st }
    } else if spec_is_whitespace(c) && !st.in_quotes {
        if st.current.len() > 0 {
            ExecScan { tokens: st.tokens.push(st.current), current: seq![], ..st }
        } else {
            st
        }
    } else if c == '%' {
        ExecScan { percent: true, ..st }
    } else {
        ExecScan { current: st.current.push(c), ..st }
    }
}

pub open spec fn exec_scan(s: Seq<char>, name: Seq<char>) -> ExecScan
    decreases s.len(),
{
    if s.len() == 0 {
        ExecScan { tokens: seq![], current: seq![], in_quotes: false, percent: false }
    } else {
        exec_step(exec_scan(s.drop_last(), name), s.last(), name)
    }
}

/// The words of an `Exec=` value: split at whitespace outside double quotes
/// (the quotes themselves dropped), with `%%` standing for `%`, `%c` for the
/// application's name, the file/URL/icon codes dropped, and `%` before any
/// other character standing for that character.
pub open spec fn exec_tokens(s: Seq<char>, name: Seq<char>) -> Seq<Seq<char>> {
    let st = exec_scan(s, name);
    if st.current.len() > 0 {
        st.tokens.push(st.current)
    } else {
        st.tokens
    }
}

/// The program and its arguments, or `None` if the value has no words.
pub open spec fn spec_parse_exec(s: Seq<char>, name: Seq<char>) -> Option<(Seq<char>, Seq<Seq<char>>)> {
    let t = exec_tokens(s, name);
    if t.len() == 0 {
        None
    } else {
        Some((t[0], t.drop_first()))
    }
}


/// What starting an entry runs: its `Exec=` program and arguments, or, for
/// an entry that asks for a terminal, the terminal `term` given `-e`, the
/// program and its arguments. `None` if the `Exec=` value has no words.
pub open spec fn spec_launch_command(
    command: Seq<char>,
    name: Seq<char>,
    in_terminal: bool,
    term: Seq<char>,
) -> Option<(Seq<char>, Seq<Seq<char>>)> {
    match spec_parse_exec(command, name) {
        None => None,
        Some((p, args)) => if in_terminal {
            Some((term, seq![seq!['-', 'e'], p] + args))
        } else {
            Some((p, args))
        },
    }
}

/// A `:`-separated directory list split so far: the non-empty entries
/// before the last `:`, and the text after it.
pub open spec fn scan_dir_list(s: Seq<char>) -> (Seq<Seq<char>>, Seq<char>)
    decreases s.len(),
{
    if s.len() == 0 {
        (seq![], seq![])
    } else {
        let (done, cur) = scan_dir_list(s.drop_last());
        if s.last() == ':' {
            (keep_nonempty(done, cur), seq![])
        } else {
            (done, cur.push(s.last()))
        }
    }
}

pub open spec fn keep_nonempty(done: Seq<Seq<char>>, cur: Seq<char>) -> Seq<Seq<char>> {
    if cur.len() > 0 {
        done.push(cur)
    } else {
        done
    }
}

/// The entries of a `:`-separated directory list such as
/// `XDG_DATA_DIRS`, in order, empty ones left out.
pub open spec fn spec_dir_list(s: Seq<char>) -> Seq<Seq<char>> {
    keep_nonempty(scan_dir_list(s).0, scan_dir_list(s).1)
}

/// The field codes that stand for files, URLs, icons, the desktop file or
/// deprecated values (`%f %F %u %U %i %k %d %D %n %N %v %m`) add nothing to
/// the command: after any prefix not ending in an unconsumed `%`, such a
/// code leaves the words read so far, the word being read and the quoting
/// exactly as they were.
pub proof fn law_file_codes_add_nothing(s: Seq<char>, name: Seq<char>, c: char)
    requires
        !exec_scan(s, name).percent,
        c == 'f' || c == 'F' || c == 'u' || c == 'U' || c == 'i' || c == 'k' || c == 'd' || c == 'D'
            || c == 'n' || c == 'N' || c == 'v' || c == 'm',
    ensures
        exec_scan(s + seq!['%', c], name) == exec_scan(s, name),
        exec_tokens(s + seq!['%', c], name) == exec_tokens(s, name),
{
    let sp = s.push('%');
    let spc = s + seq!['%', c];
    assert(spc.drop_last() =~= sp);
    assert(spc.last() == c);
    assert(sp.drop_last() =~= s);
    assert(sp.last() == '%');
    assert(!spec_is_whitespace('%'));
    let st = exec_scan(s, name);
    assert(exec_scan(sp, name) == exec_step(st, '%', name));
    assert(exec_scan(sp, name) == ExecScan { percent: true, ..st });
    assert(is_dropped_code(c));
    assert(exec_scan(spc, name) == exec_step(exec_scan(sp, name), c, name));
    assert(exec_scan(spc, name) == st);
}

fn is_dropped_code_exec(c: char) -> (r: bool)
    ensures
        r == is_dropped_code(c),
{
    c == 'f' || c == 'F' || c == 'u' || c == 'U' || c == 'i' || c == 'k' || c == 'd' || c == 'D'
        || c == 'n' || c == 'N' || c == 'v' || c == 'm'
}

fn append_chars(dst: &mut Vec<char>, src: &Vec<char>)
    ensures
        final(dst)@ == old(dst)@ + src@,
{
    let ghost start = dst@;
    for i in 0..src.len()
        invariant
            dst@ == start + src@.take(i as int),
    {
        dst.push(src[i]);
        assert(src@.take(i + 1) == src@.take(i as int).push(src@[i as int]));
    }
    assert(src@.take(src.len() as int) == src@);
}

/// Splits an `Exec=` value into a program and its arguments, stripping the
/// desktop-entry field codes, since the launcher never passes files or URIs
/// to the application it starts.
pub fn parse_exec(exec: &str, name: &str) -> (r: Option<(String, Vec<String>)>)
    ensures
        match r {
            None => spec_parse_exec(exec@, name@) is None,
            Some((p, args)) => spec_parse_exec(exec@, name@) == Some((p@, string_views(args@))),
        },
{
    let chars = chars_of(exec);
    let name_chars = chars_of(name);
    let mut tokens: Vec<Vec<char>> = Vec::new();
    let mut current: Vec<char> = Vec::new();
    let mut in_quotes = false;
    let mut percent = false;
    for i in 0..chars.len()
        invariant
            chars@ == exec@,
            name_chars@ == name@,
            ({
                let st = exec_scan(chars@.take(i as int), name@);
                &&& tokens@.map_values(|t: Vec<char>| t@) == st.tokens
                &&& current@ == st.current
                &&& in_quotes == st.in_quotes
                &&& percent == st.percent
            }),
    {
        let c = chars[i];
        proof {
            assert(chars@.take(i + 1).drop_last() == chars@.take(i as int));
            assert(chars@.take(i + 1).last() == c);
        }
        let ghost toks = tokens@;
        if percent {
            if c == '%' {
                current.push('%');
            } else if c == 'c' {
                append_chars(&mut current, &name_chars);
            } else if is_dropped_code_exec(c) {
            } else {
                current.push(c);
            }
            percent = false;
        } else if c == '"' {
            in_quotes = !in_quotes;
        } else if is_whitespace(c) && !in_quotes {
            if current.len() > 0 {
                let tok = current;
                current = Vec::new();
                tokens.push(tok);
                assert(tokens@.map_values(|t: Vec<char>| t@) =~= toks.map_values(|t: Vec<char>| t@).push(tok@));
            }
        } else if c == '%' {
            percent = true;
        } else {
            current.push(c);
        }
    }
    assert(chars@.take(chars.len() as int) == chars@);
    if current.len() > 0 {
        let ghost toks = tokens@;
        tokens.push(current);
        assert(tokens@.map_values(|t: Vec<char>| t@) =~= toks.map_values(|t: Vec<char>| t@).push(tokens@.last()@));
    }
    let ghost all = tokens@.map_values(|t: Vec<char>| t@);
    assert(all == exec_tokens(exec@, name@));
    if tokens.len() == 0 {
        return None;
    }
    let program = string_from_chars(tokens[0].as_slice());
    let mut args: Vec<String> = Vec::new();
    let mut k: usize = 1;
    while k < tokens.len()
        invariant
            1 <= k <= tokens@.len(),
            all == tokens@.map_values(|t: Vec<char>| t@),
            args@.len() + 1 == k,
            string_views(args@) == all.subrange(1, k as int),
        decreases tokens@.len() - k,
    {
        let a = string_from_chars(tokens[k].as_slice());
        assert(a@ == all[k as int]);
        let ghost before = args@;
        args.push(a);
        assert(args@ == before.push(a));
        assert(string_views(args@) =~= string_views(before).push(a@));
        k = k + 1;
    }
    assert(all.subrange(1, tokens@.len() as int) =~= all.drop_first());
    Some((program, args))
}

fn keep_nonempty_exec(done: &mut Vec<String>, cur: &Vec<char>)
    ensures
        string_views(final(done)@) == keep_nonempty(string_views(old(done)@), cur@),
{
    if cur.len() > 0 {
        let ghost before = done@;
        let entry = string_from_chars(cur.as_slice());
        done.push(entry);
        assert(string_views(done@) =~= string_views(before).push(cur@));
    }
}

/// Splits a `:`-separated directory list (the value of `XDG_DATA_DIRS`)
/// into its entries, in order, dropping empty ones.
pub fn split_dir_list(value: &str) -> (r: Vec<String>)
    ensures
        string_views(r@) == spec_dir_list(value@),
{
    let chars = chars_of(value);
    let mut done: Vec<String> = Vec::new();
    let mut cur: Vec<char> = Vec::new();
    for i in 0..chars.len()
        invariant
            chars@ == value@,
            (string_views(done@), cur@) == scan_dir_list(chars@.take(i as int)),
    {
        let c = chars[i];
        proof {
            assert(chars@.take(i + 1).drop_last() == chars@.take(i as int));
            assert(chars@.take(i + 1).last() == c);
        }
        if c == ':' {
            keep_nonempty_exec(&mut done, &cur);
            cur = Vec::new();
        } else {
            cur.push(c);
        }
    }
    assert(chars@.take(chars.len() as int) == chars@);
    keep_nonempty_exec(&mut done, &cur);
    done
}

/// The program to start for `entry` and its arguments, wrapping the
/// command in the terminal emulator `terminal` when the entry asks for one
/// (`Terminal=true`); `None` when its `Exec=` value has no words.
pub fn launch_command(entry: &DesktopEntry, terminal: &str) -> (r: Option<(String, Vec<String>)>)
    ensures
        match r {
            None => spec_launch_command(entry.command@, entry.name@, entry.terminal, terminal@) is None,
            Some((p, args)) => spec_launch_command(entry.command@, entry.name@, entry.terminal, terminal@)
                == Some((p@, string_views(args@))),
        },
{
    let (program, args) = match parse_exec(entry.command.as_str(), entry.name.as_str()) {
        None => return None,
        Some(x) => x,
    };
    if !entry.terminal {
        return Some((program, args));
    }
    let mut full: Vec<String> = Vec::new();
    let flag: Vec<char> = vec!['-', 'e'];
    full.push(string_from_chars(flag.as_slice()));
    let ghost pv = program@;
    full.push(program);
    let ghost start = full@;
    proof {
        assert(flag@ == seq!['-', 'e']);
        assert(string_views(start) =~= seq![seq!['-', 'e'], pv]);
    }
    for i in 0..args.len()
        invariant
            full@.len() == 2 + i,
            string_views(full@) == string_views(start) + string_views(args@).take(i as int),
    {
        let ghost before = full@;
        full.push(args[i].clone());
        assert(string_views(full@) =~= string_views(before).push(args@[i as int]@));
        assert(string_views(args@).take(i + 1) =~= string_views(args@).take(i as int).push(args@[i as int]@));
    }
    assert(string_views(args@).take(args.len() as int) == string_views(args@));
    Some((terminal.to_owned(), full))
}


/// A word of `s` (a maximal run of non-whitespace characters) begins at `i`.
pub open spec fn word_start(s: Seq<char>, i: int) -> bool {
    &&& 0 <= i < s.len()
    &&& !spec_is_whitespace(s[i])
    &&& (i == 0 || spec_is_whitespace(s[i - 1]))
}

pub open spec fn free_of_whitespace(q: Seq<char>) -> bool {
    forall|k: int| 0 <= k < q.len() ==> !spec_is_whitespace(#[trigger] q[k])
}

/// Some whitespace-separated word of `s` begins with `q`.
pub open spec fn word_begins_with(s: Seq<char>, q: Seq<char>) -> bool {
    free_of_whitespace(q) && exists|i: int| word_start(s, i) && occurs_at(s, q, i)
}

/// How well a (lowercased) name matches a (lowercased, non-empty) query:
/// 0 for a prefix match, 1 when a later word begins with the query, 2 for
/// any other substring match, 3 for no match.
pub open spec fn match_score(name: Seq<char>, q: Seq<char>) -> int {
    if starts_with(name, q) {
        0
    } else if word_begins_with(name, q) {
        1
    } else if contains_seq(name, q) {
        2
    } else {
        3
    }
}

pub open spec fn lowered_name(entries: Seq<DesktopEntry>, i: int) -> Seq<char> {
    unicode_lower(entries[i].name@)
}

pub open spec fn entry_score(entries: Seq<DesktopEntry>, q: Seq<char>, i: int) -> int {
    match_score(lowered_name(entries, i), q)
}

/// Entry `i` is listed before entry `j`: better score first, then by
/// lowercased name, then in list order.
pub open spec fn listed_before(entries: Seq<DesktopEntry>, q: Seq<char>, i: int, j: int) -> bool {
    let (si, sj) = (entry_score(entries, q, i), entry_score(entries, q, j));
    let (ni, nj) = (lowered_name(entries, i), lowered_name(entries, j));
    ||| si < sj
    ||| si == sj && lex_lt(ni, nj)
    ||| si == sj && ni == nj && i < j
}

proof fn lemma_listed_before_order(entries: Seq<DesktopEntry>, q: Seq<char>, i: int, j: int, k: int)
    ensures
        !listed_before(entries, q, i, i),
        i != j ==> (listed_before(entries, q, i, j) || listed_before(entries, q, j, i)),
        listed_before(entries, q, i, j) ==> !listed_before(entries, q, j, i),
        listed_before(entries, q, i, j) && listed_before(entries, q, j, k) ==> listed_before(entries, q, i, k),
{
    let (ni, nj, nk) = (lowered_name(entries, i), lowered_name(entries, j), lowered_name(entries, k));
    lemma_lex_lt_irreflexive(ni);
    lemma_lex_lt_total(ni, nj);
    if lex_lt(ni, nj) && lex_lt(nj, ni) {
        lemma_lex_lt_trans(ni, nj, ni);
    }
    if lex_lt(ni, nj) && lex_lt(nj, nk) {
        lemma_lex_lt_trans(ni, nj, nk);
    }
}

fn free_of_whitespace_exec(q: &Vec<char>) -> (r: bool)
    ensures
        r == free_of_whitespace(q@),
{
    for k in 0..q.len()
        invariant
            forall|m: int| 0 <= m < k ==> !spec_is_whitespace(#[trigger] q@[m]),
    {
        if is_whitespace(q[k]) {
            return false;
        }
    }
    true
}

fn word_begins_with_exec(s: &Vec<char>, q: &Vec<char>) -> (r: bool)
    ensures
        r == word_begins_with(s@, q@),
{
    if !free_of_whitespace_exec(q) {
        return false;
    }
    for i in 0..s.len()
        invariant
            free_of_whitespace(q@),
            forall|m: int| 0 <= m < i ==> !(word_start(s@, m) && occurs_at(s@, q@, m)),
    {
        let starts = !is_whitespace(s[i]) && (i == 0 || is_whitespace(s[i - 1]));
        if starts && occurs_at_exec(s, q, i) {
            assert(word_start(s@, i as int));
            return true;
        }
    }
    false
}

fn match_score_exec(name: &Vec<char>, q: &Vec<char>) -> (r: u8)
    ensures
        r as int == match_score(name@, q@),
{
    if starts_with_exec(name, q) {
        0
    } else if word_begins_with_exec(name, q) {
        1
    } else if contains_exec(name, q) {
        2
    } else {
        3
    }
}

/// `r` lists the entries matching `query` in launcher order: with an empty
/// (lowercased) query every entry in list order; otherwise exactly
/// the entries whose lowercased name contains the lowercased query, best
/// matches first.
pub open spec fn filter_result(entries: Seq<DesktopEntry>, query: Seq<char>, r: Seq<usize>) -> bool {
    let q = unicode_lower(query);
    &&& q.len() == 0 ==> r == Seq::new(entries.len(), |i: int| i as usize)
    &&& q.len() > 0 ==> {
        &&& forall|k: int| 0 <= k < r.len() ==> #[trigger] r[k] < entries.len()
            && entry_score(entries, q, r[k] as int) < 3
        &&& forall|i: int| 0 <= i < entries.len() && entry_score(entries, q, i) < 3
            ==> r.contains(i as usize)
        &&& forall|a: int, b: int| 0 <= a < b < r.len()
            ==> listed_before(entries, q, #[trigger] r[a] as int, #[trigger] r[b] as int)
    }
}

/// Returns the indices of the entries whose name contains `query`, compared
/// case-insensitively, best matches first: prefix matches, then matches at
/// the start of a later word, then other substring matches; ties are broken
/// alphabetically by lowercased name, then by position. An empty query
/// matches everything, in list order.
pub fn filter_entries(entries: &[DesktopEntry], query: &str) -> (r: Vec<usize>)
    ensures
        filter_result(entries@, query@, r@),
        query@.len() == 0 ==> r@ == Seq::new(entries@.len(), |i: int| i as usize),
{
    let q_string = to_lowercase(query);
    let q = chars_of(q_string.as_str());
    let ghost qs = q@;
    let n = entries.len();
    if q.len() == 0 {
        let mut all: Vec<usize> = Vec::new();
        for i in 0..n
            invariant
                n == entries@.len(),
                all@ == Seq::new(i as nat, |k: int| k as usize),
        {
            all.push(i);
            assert(all@ =~= Seq::new((i + 1) as nat, |k: int| k as usize));
        }
        return all;
    }
    let mut lowered: Vec<Vec<char>> = Vec::new();
    let mut scores: Vec<u8> = Vec::new();
    for i in 0..n
        invariant
            n == entries@.len(),
            q@ == qs,
            qs == unicode_lower(query@),
            lowered@.len() == i,
            scores@.len() == i,
            forall|k: int| 0 <= k < i ==> (#[trigger] lowered@[k])@ == lowered_name(entries@, k),
            forall|k: int| 0 <= k < i ==> #[trigger] scores@[k] as int == entry_score(entries@, qs, k),
    {
        let l = to_lowercase(entries[i].name.as_str());
        let lc = chars_of(l.as_str());
        let sc = match_score_exec(&lc, &q);
        lowered.push(lc);
        scores.push(sc);
    }
    let mut r: Vec<usize> = Vec::new();
    for i in 0..n
        invariant
            n == entries@.len(),
            qs == unicode_lower(query@),
            qs.len() > 0,
            lowered@.len() == n,
            scores@.len() == n,
            forall|k: int| 0 <= k < n ==> (#[trigger] lowered@[k])@ == lowered_name(entries@, k),
            forall|k: int| 0 <= k < n ==> #[trigger] scores@[k] as int == entry_score(entries@, qs, k),
            forall|k: int| 0 <= k < r@.len() ==> #[trigger] r@[k] < i && entry_score(entries@, qs, r@[k] as int) < 3,
            forall|k: int| 0 <= k < i && entry_score(entries@, qs, k) < 3 ==> r@.contains(k as usize),
            forall|a: int, b: int| 0 <= a < b < r@.len()
                ==> listed_before(entries@, qs, #[trigger] r@[a] as int, #[trigger] r@[b] as int),
    {
        if scores[i] < 3 {
            let mut p: usize = 0;
            while p < r.len() && !ranks_ahead(&scores, &lowered, i, r[p])
                invariant
                    p <= r@.len(),
                    i < n,
                    lowered@.len() == n,
                    scores@.len() == n,
                    forall|k: int| 0 <= k < r@.len() ==> #[trigger] r@[k] < i,
                    forall|k: int| 0 <= k < n ==> (#[trigger] lowered@[k])@ == lowered_name(entries@, k),
                    forall|k: int| 0 <= k < n ==> #[trigger] scores@[k] as int == entry_score(entries@, qs, k),
                    forall|k: int| 0 <= k < p ==> listed_before(entries@, qs, #[trigger] r@[k] as int, i as int),
                decreases r@.len() - p,
            {
                proof {
                    lemma_listed_before_order(entries@, qs, i as int, r@[p as int] as int, 0);
                }
                p = p + 1;
            }
            let ghost old_r = r@;
            proof {
                assert forall|k: int| p <= k < old_r.len() implies listed_before(entries@, qs, i as int, #[trigger] old_r[k] as int) by {
                    if k > p {
                        lemma_listed_before_order(entries@, qs, i as int, old_r[p as int] as int, old_r[k] as int);
                    }
                }
            }
            r.insert(p, i);
            assert forall|k: int| 0 <= k < i + 1 && entry_score(entries@, qs, k) < 3 implies r@.contains(k as usize) by {
                if k < i {
                    let m = choose|m: int| 0 <= m < old_r.len() && old_r[m] == k as usize;
                    if m < p {
                        assert(r@[m] == k as usize);
                    } else {
                        assert(r@[m + 1] == k as usize);
                    }
                } else {
                    assert(r@[p as int] == i);
                }
            }
        }
    }
    r
}

/// Entry `a` ranks strictly ahead of entry `b` (better score, or the same
/// score and an alphabetically earlier lowercased name).
fn ranks_ahead(scores: &Vec<u8>, lowered: &Vec<Vec<char>>, a: usize, b: usize) -> (r: bool)
    requires
        a < scores@.len(),
        b < scores@.len(),
        a < lowered@.len(),
        b < lowered@.len(),
    ensures
        r == (scores@[a as int] < scores@[b as int] || (scores@[a as int] == scores@[b as int]
            && lex_lt(lowered@[a as int]@, lowered@[b as int]@))),
{
    if scores[a] != scores[b] {
        scores[a] < scores[b]
    } else {
        lex_less(&lowered[a], &lowered[b])
    }
}


/// What the `[Desktop Entry]` group of a desktop file has set so far.
pub struct EntryFields {
    pub in_main: bool,
    pub name: Option<Seq<char>>,
    pub command: Option<Seq<char>>,
    pub terminal: bool,
    pub is_application: bool,
    pub no_display: bool,
    pub hidden: bool,
}

pub open spec fn initial_fields() -> EntryFields {
    EntryFields {
        in_main: false,
        name: None,
        command: None,
        terminal: false,
        is_application: true,
        no_display: false,
        hidden: false,
    }
}

/// A boolean value of a desktop file: `true` in any ASCII case.
pub open spec fn is_true_value(v: Seq<char>) -> bool {
    eq_ignore_ascii_case(v, "true"@)
}

/// The name inside a `[...]` group header, if `line` is one.
pub open spec fn section_header(line: Seq<char>) -> Option<Seq<char>> {
    if line.len() >= 2 && line[0] == '[' && line.last() == ']' {
        Some(line.subrange(1, line.len() - 1))
    } else {
        None
    }
}

/// `line` has its first `=` at position `i`.
pub open spec fn first_equals_at(line: Seq<char>, i: int) -> bool {
    0 <= i < line.len() && line[i] == '=' && forall|j: int| 0 <= j < i ==> line[j] != '='
}

/// The text before and after the first `=` of `line`, if it has one.
pub open spec fn split_at_equals(line: Seq<char>) -> Option<(Seq<char>, Seq<char>)> {
    if exists|i: int| first_equals_at(line, i) {
        let i = choose|i: int| first_equals_at(line, i);
        Some((line.take(i), line.skip(i + 1)))
    } else {
        None
    }
}

/// The effect of one line of a desktop file: blank lines and comments are
/// skipped, a group header selects whether the main group is being read,
/// and inside it a `key=value` line sets one of the keys the launcher
/// reads, the last occurrence winning.
pub open spec fn apply_line(f: EntryFields, raw: Seq<char>) -> EntryFields {
    let line = trim(raw);
    if line.len() == 0 || line[0] == '#' {
        f
    } else if section_header(line) is Some {
        EntryFields { in_main: section_header(line)->0 == "Desktop Entry"@, ..f }
    } else if !f.in_main {
        f
    } else if split_at_equals(line) is None {
        f
    } else {
        let (k, v) = split_at_equals(line)->0;
        let key = trim(k);
        let value = trim(v);
        if key == "Name"@ {
            EntryFields { name: Some(value), ..f }
        } else if key == "Exec"@ {
            EntryFields { command: Some(value), ..f }
        } else if key == "Terminal"@ {
            EntryFields { terminal: is_true_value(value), ..f }
        } else if key == "Type"@ {
            EntryFields { is_application: value == "Application"@, ..f }
        } else if key == "NoDisplay"@ {
            EntryFields { no_display: is_true_value(value), ..f }
        } else if key == "Hidden"@ {
            EntryFields { hidden: is_true_value(value), ..f }
        } else {
            f
        }
    }
}

/// The fields after every complete line of `s`, and the unfinished last line.
pub open spec fn scan_desktop(s: Seq<char>) -> (EntryFields, Seq<char>)
    decreases s.len(),
{
    if s.len() == 0 {
        (initial_fields(), seq![])
    } else {
        let (f, line) = scan_desktop(s.drop_last());
        if s.last() == '\n' {
            (apply_line(f, line), seq![])
        } else {
            (f, line.push(s.last()))
        }
    }
}

/// The fields set by all lines of a desktop file.
pub open spec fn desktop_fields(s: Seq<char>) -> EntryFields {
    apply_line(scan_desktop(s).0, scan_desktop(s).1)
}

/// Name, command and terminal flag of a visible application entry, or
/// `None` for a hidden, non-application or incomplete one.
pub open spec fn spec_parse_desktop_entry(s: Seq<char>) -> Option<(Seq<char>, Seq<char>, bool)> {
    let f = desktop_fields(s);
    if !f.is_application || f.no_display || f.hidden || f.name is None || f.command is None {
        None
    } else {
        Some((f.name->0, f.command->0, f.terminal))
    }
}

struct FieldsBuf {
    in_main: bool,
    name: Option<Vec<char>>,
    command: Option<Vec<char>>,
    terminal: bool,
    is_application: bool,
    no_display: bool,
    hidden: bool,
}

spec fn opt_view(o: Option<Vec<char>>) -> Option<Seq<char>> {
    match o {
        Some(v) => Some(v@),
        None => None,
    }
}

impl FieldsBuf {
    spec fn fields(&self) -> EntryFields {
        EntryFields {
            in_main: self.in_main,
            name: opt_view(self.name),
            command: opt_view(self.command),
            terminal: self.terminal,
            is_application: self.is_application,
            no_display: self.no_display,
            hidden: self.hidden,
        }
    }
}

fn first_equals(line: &Vec<char>) -> (r: Option<usize>)
    ensures
        match r {
            Some(i) => first_equals_at(line@, i as int),
            None => !exists|i: int| first_equals_at(line@, i),
        },
{
    for i in 0..line.len()
        invariant
            forall|j: int| 0 <= j < i ==> line@[j] != '=',
    {
        if line[i] == '=' {
            return Some(i);
        }
    }
    None
}

fn copy_range(s: &Vec<char>, from: usize, to: usize) -> (r: Vec<char>)
    requires
        from <= to <= s@.len(),
    ensures
        r@ == s@.subrange(from as int, to as int),
{
    let mut r: Vec<char> = Vec::new();
    let mut j = from;
    while j < to
        invariant
            from <= j <= to <= s@.len(),
            r@ == s@.subrange(from as int, j as int),
        decreases to - j,
    {
        r.push(s[j]);
        assert(s@.subrange(from as int, j + 1) == s@.subrange(from as int, j as int).push(s@[j as int]));
        j = j + 1;
    }
    r
}

fn apply_line_exec(f: &mut FieldsBuf, raw: &Vec<char>)
    ensures
        final(f).fields() == apply_line(old(f).fields(), raw@),
{
    let line = trim_chars(raw.as_slice());
    if line.len() == 0 || line[0] == '#' {
        return;
    }
    let n = line.len();
    if n >= 2 && line[0] == '[' && line[n - 1] == ']' {
        let section = copy_range(&line, 1, n - 1);
        let main = chars_of("Desktop Entry");
        f.in_main = seq_eq(&section, &main);
        return;
    }
    if !f.in_main {
        return;
    }
    let eq = match first_equals(&line) {
        Some(i) => i,
        None => {
            return;
        },
    };
    proof {
        assert(split_at_equals(line@) == Some((line@.take(eq as int), line@.skip(eq + 1))));
        assert(line@.take(eq as int) == line@.subrange(0, eq as int));
        assert(line@.skip(eq + 1) == line@.subrange(eq + 1, n as int));
    }
    let key = trim_chars(copy_range(&line, 0, eq).as_slice());
    let value = trim_chars(copy_range(&line, eq + 1, n).as_slice());
    if seq_eq(&key, &chars_of("Name")) {
        f.name = Some(value);
    } else if seq_eq(&key, &chars_of("Exec")) {
        f.command = Some(value);
    } else if seq_eq(&key, &chars_of("Terminal")) {
        f.terminal = eq_ignore_case(&value, &chars_of("true"));
    } else if seq_eq(&key, &chars_of("Type")) {
        f.is_application = seq_eq(&value, &chars_of("Application"));
    } else if seq_eq(&key, &chars_of("NoDisplay")) {
        f.no_display = eq_ignore_case(&value, &chars_of("true"));
    } else if seq_eq(&key, &chars_of("Hidden")) {
        f.hidden = eq_ignore_case(&value, &chars_of("true"));
    }
}

/// Reads the `[Desktop Entry]` group of a desktop file's contents. Returns
/// `None` for entries that are not applications, are marked `NoDisplay` or
/// `Hidden`, or lack a `Name` or an `Exec` key.
pub fn parse_desktop_entry(contents: &str, id: String) -> (r: Option<DesktopEntry>)
    ensures
        match spec_parse_desktop_entry(contents@) {
            None => r is None,
            Some((name, exec, terminal)) => r matches Some(e) && e.id@ == id@ && e.name@ == name
                && e.command@ == exec && e.terminal == terminal,
        },
{
    let chars = chars_of(contents);
    let mut f = FieldsBuf {
        in_main: false,
        name: None,
        command: None,
        terminal: false,
        is_application: true,
        no_display: false,
        hidden: false,
    };
    let mut line: Vec<char> = Vec::new();
    for i in 0..chars.len()
        invariant
            chars@ == contents@,
            (f.fields(), line@) == scan_desktop(chars@.take(i as int)),
    {
        let c = chars[i];
        proof {
            assert(chars@.take(i + 1).drop_last() == chars@.take(i as int));
            assert(chars@.take(i + 1).last() == c);
        }
        if c == '\n' {
            apply_line_exec(&mut f, &line);
            line = Vec::new();
        } else {
            line.push(c);
        }
    }
    assert(chars@.take(chars.len() as int) == chars@);
    apply_line_exec(&mut f, &line);
    if !f.is_application || f.no_display || f.hidden {
        return None;
    }
    match (f.name, f.command) {
        (Some(name), Some(exec)) => Some(
            DesktopEntry {
                id,
                name: string_from_chars(name.as_slice()),
                command: string_from_chars(exec.as_slice()),
                terminal: f.terminal,
            },
        ),
        _ => None,
    }
}

/// An entry's values: id, name, command and terminal flag.
pub open spec fn entry_view(e: DesktopEntry) -> (Seq<char>, Seq<char>, Seq<char>, bool) {
    (e.id@, e.name@, e.command@, e.terminal)
}

/// No earlier file has the same id as file `i`.
pub open spec fn first_of_id(files: Seq<(Seq<char>, Option<Seq<char>>)>, i: int) -> bool {
    forall|j: int| 0 <= j < i ==> files[j].0 != files[i].0
}

/// The entries that desktop files describe, given as (file id, contents if
/// readable) in precedence order: for each id only its first file counts
/// (an unreadable or hidden one still shadows later ones), and only
/// visible applications are kept, in file order.
pub open spec fn found_entries(files: Seq<(Seq<char>, Option<Seq<char>>)>) -> Seq<(Seq<char>, Seq<char>, Seq<char>, bool)>
    decreases files.len(),
{
    if files.len() == 0 {
        seq![]
    } else {
        let rest = found_entries(files.drop_last());
        let i = files.len() - 1;
        if first_of_id(files, i) && files[i].1 is Some && spec_parse_desktop_entry(files[i].1->0) is Some {
            let (name, exec, terminal) = spec_parse_desktop_entry(files[i].1->0)->0;
            rest.push((files[i].0, name, exec, terminal))
        } else {
            rest
        }
    }
}

/// Entry `i` of `found` is listed before entry `j`: its lowercased name
/// sorts first, or the names are equal and it was found first.
pub open spec fn sorted_before(found: Seq<(Seq<char>, Seq<char>, Seq<char>, bool)>, i: int, j: int) -> bool {
    let (ni, nj) = (unicode_lower(found[i].1), unicode_lower(found[j].1));
    lex_lt(ni, nj) || (ni == nj && i < j)
}

/// `idx` lists every position of `found` once, sorted by lowercased name,
/// ties in the order found.
pub open spec fn name_order(found: Seq<(Seq<char>, Seq<char>, Seq<char>, bool)>, idx: Seq<usize>) -> bool {
    &&& idx.len() == found.len()
    &&& forall|k: int| 0 <= k < idx.len() ==> #[trigger] idx[k] < found.len()
    &&& forall|a: int, b: int| 0 <= a < b < idx.len() ==> sorted_before(found, #[trigger] idx[a] as int, #[trigger] idx[b] as int)
}

proof fn lemma_sorted_before_order(found: Seq<(Seq<char>, Seq<char>, Seq<char>, bool)>, i: int, j: int, k: int)
    ensures
        !sorted_before(found, i, i),
        i != j ==> (sorted_before(found, i, j) || sorted_before(found, j, i)),
        sorted_before(found, i, j) ==> !sorted_before(found, j, i),
        sorted_before(found, i, j) && sorted_before(found, j, k) ==> sorted_before(found, i, k),
{
    let (ni, nj, nk) = (unicode_lower(found[i].1), unicode_lower(found[j].1), unicode_lower(found[k].1));
    lemma_lex_lt_irreflexive(ni);
    lemma_lex_lt_total(ni, nj);
    if lex_lt(ni, nj) && lex_lt(nj, ni) {
        lemma_lex_lt_trans(ni, nj, ni);
    }
    if lex_lt(ni, nj) && lex_lt(nj, nk) {
        lemma_lex_lt_trans(ni, nj, nk);
    }
}

pub open spec fn files_view(files: Seq<(String, Option<String>)>) -> Seq<(Seq<char>, Option<Seq<char>>)> {
    files.map_values(|f: (String, Option<String>)| (f.0@, match f.1 {
        Some(c) => Some(c@),
        None => None,
    }))
}

fn seen_before(seen: &Vec<String>, id: &String) -> (r: bool)
    ensures
        r == string_views(seen@).contains(id@),
{
    for k in 0..seen.len()
        invariant
            forall|m: int| 0 <= m < k ==> string_views(seen@)[m] != id@,
    {
        if seen[k] == *id {
            assert(string_views(seen@)[k as int] == id@);
            return true;
        }
    }
    false
}

/// Turns the desktop files found, as (file id, contents if readable) in
/// precedence order, into the launcher's entry list: the first file for
/// each id wins, hidden and non-application entries are skipped, and the
/// entries are sorted by lowercased name, equal names in the order found.
pub fn collect_desktop_entries(files: Vec<(String, Option<String>)>) -> (r: Vec<DesktopEntry>)
    ensures
        exists|idx: Seq<usize>| {
            &&& name_order(found_entries(files_view(files@)), idx)
            &&& r@.len() == idx.len()
            &&& forall|k: int| 0 <= k < idx.len()
                ==> #[trigger] entry_view(r@[k]) == found_entries(files_view(files@))[idx[k] as int]
        },
{
    let ghost fv = files_view(files@);
    let mut seen: Vec<String> = Vec::new();
    let mut found: Vec<DesktopEntry> = Vec::new();
    let mut lowered: Vec<Vec<char>> = Vec::new();
    for i in 0..files.len()
        invariant
            fv == files_view(files@),
            found@.len() == lowered@.len(),
            found@.map_values(|e: DesktopEntry| entry_view(e)) == found_entries(fv.take(i as int)),
            forall|k: int| 0 <= k < found@.len() ==> (#[trigger] lowered@[k])@ == unicode_lower(found@[k].name@),
            string_views(seen@) == Seq::new(i as nat, |j: int| fv[j].0),
    {
        let ghost before = found@;
        let ghost sv = string_views(seen@);
        proof {
            assert(fv.take(i + 1).drop_last() == fv.take(i as int));
            assert(fv[i as int].0 == files@[i as int].0@);
        }
        let id = &files[i].0;
        let first = !seen_before(&seen, id);
        proof {
            let t = fv.take(i + 1);
            if first {
                assert forall|j: int| 0 <= j < i implies t[j].0 != t[i as int].0 by {
                    assert(sv[j] == fv[j].0);
                }
            } else {
                let k = choose|k: int| 0 <= k < sv.len() && sv[k] == id@;
                assert(t[k].0 == t[i as int].0);
            }
        }
        let ghost old_seen = seen@;
        let c = id.clone();
        seen.push(c);
        proof {
            assert(seen@ == old_seen.push(c));
            assert(sv.len() == i);
            assert(string_views(seen@).len() == i + 1);
            assert forall|j: int| 0 <= j < i + 1 implies #[trigger] string_views(seen@)[j] == fv[j].0 by {
                if j < i {
                    assert(seen@[j] == old_seen[j]);
                    assert(sv[j] == fv[j].0);
                } else {
                    assert(seen@[j] == c);
                }
            }
            assert(string_views(seen@) =~= Seq::new((i + 1) as nat, |j: int| fv[j].0));
        }
        if first {
            match &files[i].1 {
                Some(contents) => {
                    match parse_desktop_entry(contents.as_str(), id.clone()) {
                        Some(e) => {
                            let l = to_lowercase(e.name.as_str());
                            lowered.push(chars_of(l.as_str()));
                            found.push(e);
                            proof {
                                assert(found@.map_values(|e: DesktopEntry| entry_view(e))
                                    =~= before.map_values(|e: DesktopEntry| entry_view(e)).push(entry_view(e)));
                            }
                        },
                        None => {},
                    }
                },
                None => {},
            }
        }
    }
    assert(fv.take(files@.len() as int) == fv);
    let ghost fe = found_entries(fv);
    let n = found.len();
    let mut idx: Vec<usize> = Vec::new();
    for i in 0..n
        invariant
            n == found@.len(),
            found@.len() == lowered@.len(),
            fe == found@.map_values(|e: DesktopEntry| entry_view(e)),
            forall|k: int| 0 <= k < found@.len() ==> (#[trigger] lowered@[k])@ == unicode_lower(found@[k].name@),
            idx@.len() == i,
            forall|k: int| 0 <= k < idx@.len() ==> #[trigger] idx@[k] < i,
            forall|a: int, b: int| 0 <= a < b < idx@.len() ==> sorted_before(fe, #[trigger] idx@[a] as int, #[trigger] idx@[b] as int),
    {
        let mut p: usize = 0;
        while p < idx.len() && !lex_less(&lowered[i], &lowered[idx[p]])
            invariant
                p <= idx@.len(),
                i < n,
                n == found@.len(),
                found@.len() == lowered@.len(),
                fe == found@.map_values(|e: DesktopEntry| entry_view(e)),
                forall|k: int| 0 <= k < found@.len() ==> (#[trigger] lowered@[k])@ == unicode_lower(found@[k].name@),
                forall|k: int| 0 <= k < idx@.len() ==> #[trigger] idx@[k] < i,
                forall|k: int| 0 <= k < p ==> sorted_before(fe, #[trigger] idx@[k] as int, i as int),
            decreases idx@.len() - p,
        {
            proof {
                let j = idx@[p as int] as int;
                assert(fe[j].1 == found@[j].name@);
                assert(fe[i as int].1 == found@[i as int].name@);
                lemma_lex_lt_total(lowered@[j]@, lowered@[i as int]@);
            }
            p = p + 1;
        }
        let ghost old_idx = idx@;
        proof {
            if p < old_idx.len() {
                let j = old_idx[p as int] as int;
                assert(fe[j].1 == found@[j].name@);
                assert(fe[i as int].1 == found@[i as int].name@);
                assert(sorted_before(fe, i as int, j));
            }
            assert forall|k: int| p <= k < old_idx.len() implies sorted_before(fe, i as int, #[trigger] old_idx[k] as int) by {
                if k > p {
                    lemma_sorted_before_order(fe, i as int, old_idx[p as int] as int, old_idx[k] as int);
                }
            }
            assert forall|k: int| 0 <= k < p implies sorted_before(fe, #[trigger] old_idx[k] as int, i as int) by {}
        }
        idx.insert(p, i);
        proof {
            assert forall|a: int, b: int| 0 <= a < b < idx@.len() implies sorted_before(fe, #[trigger] idx@[a] as int, #[trigger] idx@[b] as int) by {
                if b < p {
                    assert(idx@[a] == old_idx[a] && idx@[b] == old_idx[b]);
                } else if b == p {
                    assert(idx@[a] == old_idx[a]);
                } else if a == p {
                    assert(idx@[b] == old_idx[b - 1]);
                } else if a < p {
                    assert(idx@[a] == old_idx[a] && idx@[b] == old_idx[b - 1]);
                } else {
                    assert(idx@[a] == old_idx[a - 1] && idx@[b] == old_idx[b - 1]);
                }
            }
        }
    }
    let mut out: Vec<DesktopEntry> = Vec::new();
    for k in 0..n
        invariant
            n == found@.len(),
            n == idx@.len(),
            fe == found@.map_values(|e: DesktopEntry| entry_view(e)),
            forall|m: int| 0 <= m < idx@.len() ==> #[trigger] idx@[m] < n,
            out@.len() == k,
            forall|m: int| 0 <= m < k ==> #[trigger] entry_view(out@[m]) == fe[idx@[m] as int],
    {
        let e = found[idx[k]].duplicate();
        out.push(e);
        assert(entry_view(out@[k as int]) == fe[idx@[k as int] as int]);
    }
    assert(name_order(fe, idx@));
    out
}

} // verus!
