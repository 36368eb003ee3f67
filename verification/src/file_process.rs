use vstd::prelude::*;

use xml::reader::{EventReader, XmlEvent};

use crate::lexer::{push_char, text_tokens, Lexer};
use crate::model::{bump_df, Doc, DocSpec, Model, ModelSpec, Timestamp, TF};
use crate::str_map::StrMap;

verus! {

broadcast use vstd::string::axiom_spec_iter;

/// The events that the `xml` crate reads from `bytes`, one entry each, with
/// the text of each character-data event and `None` for any other event;
/// `None` as a whole where the reader meets an error.
pub uninterp spec fn xml_character_events(bytes: Seq<u8>) -> Option<Seq<Option<Seq<char>>>>;

/// The last component of a path, as `std::path::Path::file_name` finds it;
/// `None` where the path ends in `..` or has no component but a root or a
/// prefix.
pub uninterp spec fn path_file_name(path: Seq<char>) -> Option<Seq<char>>;

/// The place of the last `.` in `name`, or -1 where it holds none.
pub open spec fn last_dot(name: Seq<char>) -> int
    decreases name.len(),
{
    if name.len() == 0 {
        -1
    } else if name.last() == '.' {
        name.len() - 1
    } else {
        last_dot(name.drop_last())
    }
}

/// The extension of a file name, as `std::path::Path::extension` documents
/// it: the text after the last `.`; none where the name holds no `.`, or
/// where its only `.` is its first character.
pub open spec fn name_extension(name: Seq<char>) -> Option<Seq<char>> {
    let d = last_dot(name);
    if d <= 0 {
        None
    } else {
        Some(name.skip(d + 1))
    }
}

/// The extension of a path: that of its file name, where it has one.
pub open spec fn path_extension(path: Seq<char>) -> Option<Seq<char>> {
    match path_file_name(path) {
        None => None,
        Some(name) => name_extension(name),
    }
}

/// Reads every event of `bytes` with `xml`'s `EventReader`, up to the end of
/// the document or the first error. What the events are is named, not
/// described: it depends on `bytes` alone.
#[verifier::external_body]
fn read_xml_events(bytes: &[u8]) -> (r: Option<Vec<Option<String>>>)
    ensures
        r is Some <==> xml_character_events(bytes@) is Some,
        r matches Some(v) ==> xml_character_events(bytes@) == Some(v.deep_view()),
{
    let mut out = Vec::new();
    for event in EventReader::new(bytes) {
        match event {
            Ok(XmlEvent::Characters(text)) => out.push(Some(text)),
            Ok(_) => out.push(None),
            Err(_) => return None,
        }
    }
    Some(out)
}

/// `std::path::Path::file_name` of `path`, as text. Which component it is
/// is named, not described: it depends on `path` alone. A name taken from a
/// `&str` is always valid text.
#[verifier::external_body]
fn file_name_of(path: &str) -> (r: Option<String>)
    ensures
        r.deep_view() == path_file_name(path@),
{
    match std::path::Path::new(path).file_name() {
        Some(name) => match name.to_str() {
            Some(text) => Some(text.to_string()),
            None => None,
        },
        None => None,
    }
}

/// `String::push_str`: appends `t` to `s`.
#[verifier::external_body]
fn push_str(s: &mut String, t: &str)
    ensures
        final(s)@ == old(s)@ + t@,
{
    s.push_str(t);
}

/// The text of the character-data events, each followed by one space.
pub open spec fn joined_text(events: Seq<Option<Seq<char>>>) -> Seq<char>
    decreases events.len(),
{
    if events.len() == 0 {
        seq![]
    } else {
        joined_text(events.drop_last()) + match events.last() {
            Some(text) => text.push(' '),
            None => seq![],
        }
    }
}

/// How many times `t` occurs in `toks`.
pub open spec fn occurrences(toks: Seq<Seq<char>>, t: Seq<char>) -> nat
    decreases toks.len(),
{
    if toks.len() == 0 {
        0
    } else {
        occurrences(toks.drop_last(), t) + if toks.last() == t {
            1nat
        } else {
            0nat
        }
    }
}

/// The distinct tokens of `toks`, in the order of their first occurrence.
pub open spec fn distinct_tokens(toks: Seq<Seq<char>>) -> Seq<Seq<char>>
    decreases toks.len(),
{
    if toks.len() == 0 {
        seq![]
    } else {
        let d = distinct_tokens(toks.drop_last());
        if d.contains(toks.last()) {
            d
        } else {
            d.push(toks.last())
        }
    }
}

/// How many times each token occurs in `toks`.
pub open spec fn term_counts(toks: Seq<Seq<char>>) -> Map<Seq<char>, usize> {
    Map::new(|t: Seq<char>| occurrences(toks, t) > 0, |t: Seq<char>| occurrences(toks, t) as usize)
}

pub(crate) proof fn lemma_occurrences_bound(toks: Seq<Seq<char>>, t: Seq<char>)
    ensures
        occurrences(toks, t) <= toks.len(),
    decreases toks.len(),
{
    if toks.len() > 0 {
        lemma_occurrences_bound(toks.drop_last(), t);
    }
}

/// Counts how many times each token occurs; the keys come in the order of
/// their first occurrence.
pub fn count_terms(toks: &Vec<String>) -> (tf: TF)
    ensures
        tf.wf(),
        tf@ == term_counts(toks.deep_view()),
        tf.keys() == distinct_tokens(toks.deep_view()),
{
    let ghost all = toks.deep_view();
    let mut tf: TF = StrMap::new();
    let n = toks.len();
    let mut i: usize = 0;
    assert(term_counts(all.take(0)) =~= Map::<Seq<char>, usize>::empty());
    assert(distinct_tokens(all.take(0)) =~= Seq::<Seq<char>>::empty());
    while i < n
        invariant
            tf.wf(),
            all == toks.deep_view(),
            n == all.len(),
            i <= n,
            tf@ == term_counts(all.take(i as int)),
            tf.keys() == distinct_tokens(all.take(i as int)),
        decreases n - i,
    {
        let token = &toks[i];
        let ghost k = all[i as int];
        let ghost pre = all.take(i as int);
        let ghost post = all.take(i + 1);
        proof {
            assert(token@ == k);
            assert(post.drop_last() =~= pre);
            assert(post.last() == k);
        }
        match tf.find(token) {
            Some(j) => {
                let c: usize = *tf.value_at(j);
                proof {
                    lemma_occurrences_bound(pre, k);
                    assert(tf.keys().contains(k));
                }
                let _ = tf.set_value_at(j, c + 1);
                proof {
                    assert(tf@ =~= term_counts(post));
                }
            },
            None => {
                tf.insert(token.clone(), 1);
                proof {
                    assert(!pre.contains(k) ==> occurrences(pre, k) == 0) by {
                        lemma_absent_occurrences(pre, k);
                    }
                    assert(!distinct_tokens(pre).contains(k));
                    assert(tf@ =~= term_counts(post));
                }
            },
        }
        i = i + 1;
    }
    assert(all.take(n as int) =~= all);
    tf
}

proof fn lemma_absent_occurrences(toks: Seq<Seq<char>>, t: Seq<char>)
    ensures
        !toks.contains(t) ==> occurrences(toks, t) == 0,
    decreases toks.len(),
{
    if toks.len() > 0 && !toks.contains(t) {
        assert(!toks.drop_last().contains(t)) by {
            if toks.drop_last().contains(t) {
                let q = choose|q: int| 0 <= q < toks.len() - 1 && toks.drop_last()[q] == t;
                assert(toks[q] == t);
            }
        }
        lemma_absent_occurrences(toks.drop_last(), t);
        assert(toks.last() != t) by {
            assert(toks[toks.len() - 1] == toks.last());
        }
    }
}

/// The document of a file with text `content`, read at `ts`: how often each
/// of its tokens occurs, the tokens in the order of their first occurrence.
pub fn read_doc(content: &str, ts: Timestamp) -> (d: Doc)
    ensures
        d.wf(),
        d@ == (DocSpec { tf: term_counts(text_tokens(content@)), ts }),
        d.spec_tf().keys() == distinct_tokens(text_tokens(content@)),
{
    let chars = chars_of(content);
    let mut lexer = Lexer::new(chars.as_slice());
    let toks = lexer.collect_tokens();
    let tf = count_terms(&toks);
    Doc::new(tf, ts)
}

/// Tokenizes the text of a file, counts its tokens, adds one document to the
/// frequency of each token, and stores the counts with the time `ts` at `path`.
pub fn tokenize_file(path: &str, content: &str, res: &mut Model, ts: Timestamp)
    requires
        old(res).wf(),
    ensures
        final(res).wf(),
        final(res)@ == (ModelSpec {
            df: bump_df(old(res)@.df, term_counts(text_tokens(content@)).dom()),
            index: old(res)@.index.insert(
                path@,
                DocSpec { tf: term_counts(text_tokens(content@)), ts },
            ),
        }),
        final(res).spec_index().values()[final(res).spec_index().position_of(
            path@,
        )].spec_tf().keys() == distinct_tokens(text_tokens(content@)),
{
    let doc = read_doc(content, ts);
    res.bump_document_frequencies(doc.get_tf());
    res.insert_doc(path.to_owned(), doc);
}

/// The characters of `s`, in order.
pub fn chars_of(s: &str) -> (r: Vec<char>)
    ensures
        r@ == s@,
{
    let mut r: Vec<char> = Vec::new();
    for c in it: s.chars()
        invariant
            r@ == it.seq().take(it.index() as int),
    {
        r.push(c);
    }
    r
}

/// The text of an XML document: the text of each of its character-data
/// events, each followed by a space; `None` where the document cannot be
/// read.
pub fn convert_xml(bytes: &[u8]) -> (r: Option<String>)
    ensures
        match xml_character_events(bytes@) {
            None => r is None,
            Some(events) => r matches Some(text) && text@ == joined_text(events),
        },
{
    match read_xml_events(bytes) {
        None => None,
        Some(events) => Some(join_character_data(&events)),
    }
}

/// The text of each character-data event (`Some`), in order, each followed
/// by a space; other events (`None`) add nothing.
pub fn join_character_data(events: &Vec<Option<String>>) -> (text: String)
    ensures
        text@ == joined_text(events.deep_view()),
{
    let ghost evs = events.deep_view();
    let mut buffer = String::new();
    let n = events.len();
    let mut i: usize = 0;
    while i < n
        invariant
            n == events@.len(),
            evs == events.deep_view(),
            i <= n,
            buffer@ == joined_text(evs.take(i as int)),
        decreases n - i,
    {
        match &events[i] {
            Some(text) => {
                push_str(&mut buffer, text.as_str());
                push_char(&mut buffer, ' ');
            },
            None => {},
        }
        proof {
            assert(evs.take(i + 1).drop_last() =~= evs.take(i as int));
            assert(evs.take(i + 1).last() == evs[i as int]);
            assert(buffer@ =~= joined_text(evs.take(i + 1)));
        }
        i = i + 1;
    }
    assert(evs.take(n as int) =~= evs);
    buffer
}

/// Whether a path names a file that the XML reader takes: one whose
/// extension is `xml` or `xhtml`.
pub fn check_xml_ext(path: &str) -> (b: bool)
    ensures
        b <==> (path_extension(path@) == Some("xml"@) || path_extension(path@) == Some("xhtml"@)),
{
    let ext = match file_name_of(path) {
        None => None,
        Some(name) => extension_of_name(name.as_str()),
    };
    is_xml_extension(&ext)
}

/// The extension of the file name `name`: the text after its last `.`, if
/// that `.` is not its first character.
pub fn extension_of_name(name: &str) -> (r: Option<String>)
    ensures
        r.deep_view() == name_extension(name@),
{
    let cs = chars_of(name);
    let n = cs.len();
    let mut i: usize = n;
    assert(cs@.take(n as int) =~= cs@);
    while i > 0 && cs[i - 1] != '.'
        invariant
            cs@ == name@,
            n == cs@.len(),
            i <= n,
            last_dot(cs@) == last_dot(cs@.take(i as int)),
        decreases i,
    {
        assert(cs@.take(i as int).drop_last() =~= cs@.take(i - 1));
        i = i - 1;
    }
    if i <= 1 {
        proof {
            if i == 1 {
                assert(cs@.take(1).last() == '.');
            } else {
                assert(cs@.take(0).len() == 0);
            }
        }
        return None;
    }
    assert(cs@.take(i as int).last() == '.');
    let mut ext = String::new();
    let mut j: usize = i;
    while j < n
        invariant
            cs@ == name@,
            n == cs@.len(),
            i <= j <= n,
            ext@ == cs@.subrange(i as int, j as int),
        decreases n - j,
    {
        push_char(&mut ext, cs[j]);
        assert(ext@ =~= cs@.subrange(i as int, j + 1));
        j = j + 1;
    }
    assert(cs@.skip(i as int) =~= cs@.subrange(i as int, n as int));
    Some(ext)
}

/// Whether an extension is one that the XML reader takes: `xml` or `xhtml`.
pub fn is_xml_extension(ext: &Option<String>) -> (b: bool)
    ensures
        b <==> (ext.deep_view() == Some("xml"@) || ext.deep_view() == Some("xhtml"@)),
{
    let xml_ext = "xml".to_owned();
    let xhtml_ext = "xhtml".to_owned();
    proof {
        reveal_strlit("xml");
        reveal_strlit("xhtml");
    }
    match ext {
        None => false,
        Some(e) => *e == xml_ext || *e == xhtml_ext,
    }
}

} // verus!
