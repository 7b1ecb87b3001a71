//! The texts that go to an engine and come back from it: command lines, the
//! framing of a response, and the reading of an engine's answers.

use vstd::prelude::*;
use vstd::utf8::{valid_utf8, decode_utf8};
use crate::gtp::{Color, GenMove, GtpError, Vertex, parsed_vertex, is_single_token};
use crate::text::{
    chars_of, push_char, push_chars, string_of, same_text, decimal, decimal_chars, tokens, trim,
    trim_start, trim_end, white_space, is_whitespace, word_bounds, split_whitespace,
};

verus! {

/// `String::from_utf8`: the text that the bytes encode, where they are valid
/// UTF-8, and nothing where they are not.
#[verifier::external_body]
fn text_of_bytes(bytes: Vec<u8>) -> (r: Option<String>)
    ensures
        match r {
            Some(s) => valid_utf8(bytes@) && s@ == decode_utf8(bytes@),
            None => !valid_utf8(bytes@),
        },
{
    String::from_utf8(bytes).ok()
}

/// White space at the start of a text is what stands before its first other
/// character.
pub proof fn lemma_trim_start(s: Seq<char>, k: int)
    requires
        0 <= k <= s.len(),
        forall|i: int| 0 <= i < k ==> white_space(#[trigger] s[i]),
        k < s.len() ==> !white_space(s[k]),
    ensures
        trim_start(s) == s.skip(k),
    decreases k,
{
    if k == 0 {
        assert(s.skip(0) =~= s);
    } else {
        assert(white_space(s[0]));
        let t = s.skip(1);
        assert forall|i: int| 0 <= i < k - 1 implies white_space(#[trigger] t[i]) by {
            assert(t[i] == s[i + 1]);
        }
        lemma_trim_start(t, k - 1);
        assert(t.skip(k - 1) =~= s.skip(k));
    }
}

/// White space at the end of a text is what stands behind its last other
/// character.
pub proof fn lemma_trim_end(s: Seq<char>, k: int)
    requires
        0 <= k <= s.len(),
        forall|i: int| k <= i < s.len() ==> white_space(#[trigger] s[i]),
        0 < k ==> !white_space(s[k - 1]),
    ensures
        trim_end(s) == s.take(k),
    decreases s.len() - k,
{
    if k == s.len() {
        assert(s.take(k) =~= s);
    } else {
        assert(white_space(s[s.len() - 1]));
        let t = s.drop_last();
        assert forall|i: int| k <= i < t.len() implies white_space(#[trigger] t[i]) by {
            assert(t[i] == s[i]);
        }
        lemma_trim_end(t, k);
        assert(t.take(k) =~= s.take(k));
    }
}

/// The index of the first character of `v[from..]` that is not white space, or
/// the length of `v`.
fn skip_space(v: &Vec<char>, from: usize) -> (k: usize)
    requires
        from <= v@.len(),
    ensures
        from <= k <= v@.len(),
        v@.skip(k as int) == trim_start(v@.skip(from as int)),
{
    let mut k: usize = from;
    while k < v.len() && is_whitespace(v[k])
        invariant
            from <= k <= v@.len(),
            forall|i: int| from <= i < k ==> white_space(#[trigger] v@[i]),
        decreases v@.len() - k,
    {
        k += 1;
    }
    proof {
        let s = v@.skip(from as int);
        assert forall|i: int| 0 <= i < k - from implies white_space(#[trigger] s[i]) by {
            assert(s[i] == v@[from + i]);
        }
        lemma_trim_start(s, k - from);
        assert(s.skip(k - from) =~= v@.skip(k as int));
    }
    k
}

/// The index behind the last character of `v[from..]` that is not white space,
/// or `from`.
fn drop_space(v: &Vec<char>, from: usize) -> (k: usize)
    requires
        from <= v@.len(),
    ensures
        from <= k <= v@.len(),
        v@.subrange(from as int, k as int) == trim_end(v@.skip(from as int)),
{
    let mut k: usize = v.len();
    while k > from && is_whitespace(v[k - 1])
        invariant
            from <= k <= v@.len(),
            forall|i: int| k <= i < v@.len() ==> white_space(#[trigger] v@[i]),
        decreases k,
    {
        k -= 1;
    }
    proof {
        let s = v@.skip(from as int);
        assert forall|i: int| k - from <= i < s.len() implies white_space(#[trigger] s[i]) by {
            assert(s[i] == v@[from + i]);
        }
        lemma_trim_end(s, k - from);
        assert(s.take(k - from) =~= v@.subrange(from as int, k as int));
    }
    k
}

/// The line that carries `command` under the number `id`: the number, a space
/// and the command.
pub fn command_line(id: u32, command: &str) -> (r: String)
    ensures
        r@ == decimal(id as nat) + seq![' '] + command@,
{
    let mut s = String::new();
    push_chars(&mut s, &decimal_chars(id));
    push_char(&mut s, ' ');
    push_chars(&mut s, &chars_of(command));
    assert(s@ =~= decimal(id as nat) + seq![' '] + command@);
    s
}

/// The text of a command with a number as its argument.
pub fn command_with_number(name: &str, n: u32) -> (r: String)
    ensures
        r@ == name@ + seq![' '] + decimal(n as nat),
{
    let mut s = String::new();
    push_chars(&mut s, &chars_of(name));
    push_char(&mut s, ' ');
    push_chars(&mut s, &decimal_chars(n));
    assert(s@ =~= name@ + seq![' '] + decimal(n as nat));
    s
}

/// The text of a command with one word as its argument.
pub fn command_with_word(name: &str, word: &str) -> (r: String)
    ensures
        r@ == name@ + seq![' '] + word@,
{
    let mut s = String::new();
    push_chars(&mut s, &chars_of(name));
    push_char(&mut s, ' ');
    push_chars(&mut s, &chars_of(word));
    assert(s@ =~= name@ + seq![' '] + word@);
    s
}

/// The command that asks whether the engine knows the command `name`, which
/// must be one word.
pub fn known_command_text(command_name: &str) -> (r: Result<String, GtpError>)
    ensures
        tokens(command_name@).len() == 1 ==> (r matches Ok(s) && s@ == "known_command"@ + seq![' ']
            + command_name@),
        tokens(command_name@).len() != 1 ==> r == Err::<String, GtpError>(
            GtpError::NotSingleToken,
        ),
{
    if !is_single_token(command_name) {
        return Err(GtpError::NotSingleToken);
    }
    Ok(command_with_word("known_command", command_name))
}

/// The texts of `vs`, each with a space before it; none where one of them has
/// no text.
pub open spec fn vertex_list(vs: Seq<Vertex>) -> Option<Seq<char>>
    decreases vs.len(),
{
    if vs.len() == 0 {
        Some(Seq::empty())
    } else {
        match (vertex_list(vs.drop_last()), vs.last().text()) {
            (Some(front), Some(t)) => Some(front + seq![' '] + t),
            _ => None,
        }
    }
}

/// The command that sets the handicap stones on `vertices`.
pub fn set_free_handicap_text(vertices: &Vec<Vertex>) -> (r: Result<String, GtpError>)
    ensures
        match vertex_list(vertices@) {
            Some(list) => r matches Ok(s) && s@ == "set_free_handicap"@ + list,
            None => r == Err::<String, GtpError>(GtpError::VertexOutOfRange),
        },
{
    let mut command = "set_free_handicap".to_owned();
    let mut i: usize = 0;
    proof {
        assert(vertices@.take(0) =~= Seq::<Vertex>::empty());
        assert("set_free_handicap"@ + Seq::<char>::empty() =~= "set_free_handicap"@);
    }
    while i < vertices.len()
        invariant
            i <= vertices@.len(),
            vertex_list(vertices@.take(i as int)) matches Some(list) && command@
                == "set_free_handicap"@ + list,
        decreases vertices@.len() - i,
    {
        let ghost front = vertex_list(vertices@.take(i as int))->0;
        proof {
            assert(vertices@.take(i + 1).drop_last() =~= vertices@.take(i as int));
            assert(vertices@.take(i + 1).last() == vertices@[i as int]);
        }
        match vertices[i].to_string() {
            Ok(text) => {
                push_char(&mut command, ' ');
                push_chars(&mut command, &chars_of(text.as_str()));
                assert(command@ =~= "set_free_handicap"@ + (front + seq![' '] + text@));
            },
            Err(e) => {
                proof {
                    lemma_vertex_list_fails(vertices@, i + 1);
                }
                return Err(e);
            },
        }
        i += 1;
    }
    proof {
        assert(vertices@.take(i as int) =~= vertices@);
    }
    Ok(command)
}

/// A list has no text once a part of it has none.
proof fn lemma_vertex_list_fails(vs: Seq<Vertex>, k: int)
    requires
        0 <= k <= vs.len(),
        vertex_list(vs.take(k)) is None,
    ensures
        vertex_list(vs) is None,
    decreases vs.len() - k,
{
    if k < vs.len() {
        assert(vs.take(k + 1).drop_last() =~= vs.take(k));
        lemma_vertex_list_fails(vs, k + 1);
    } else {
        assert(vs.take(k) =~= vs);
    }
}

/// What goes to the engine for the command `s`: the command without white
/// space around it, and two line feeds.
pub fn frame(s: &str) -> (r: String)
    ensures
        r@ == trim(s@) + seq!['\n', '\n'],
{
    let v = chars_of(s);
    let from = skip_space(&v, 0);
    let to = drop_space(&v, from);
    let mut r = string_of(&v, from, to);
    push_char(&mut r, '\n');
    push_char(&mut r, '\n');
    proof {
        assert(v@.skip(0) =~= v@);
        assert(r@ =~= trim(s@) + seq!['\n', '\n']);
    }
    r
}

/// `s` ends with the bytes `t`.
pub open spec fn ends_with(s: Seq<u8>, t: Seq<u8>) -> bool {
    s.len() >= t.len() && s.skip(s.len() - t.len()) == t
}

/// Whether the bytes read so far hold a whole response: one that ends with an
/// empty line, written with line feeds or with carriage returns and line feeds.
pub fn is_complete(s: &Vec<u8>) -> (r: bool)
    ensures
        r == (ends_with(s@, seq![10u8, 10u8]) || ends_with(s@, seq![13u8, 10u8, 13u8, 10u8])),
{
    let n = s.len();
    if n >= 2 && s[n - 2] == 10 && s[n - 1] == 10 {
        assert(s@.skip(n - 2) =~= seq![10u8, 10u8]);
        return true;
    }
    proof {
        if n >= 2 {
            assert(s@.skip(n - 2)[0] == s@[n - 2] && s@.skip(n - 2)[1] == s@[n - 1]);
        }
    }
    if n >= 4 && s[n - 4] == 13 && s[n - 3] == 10 && s[n - 2] == 13 && s[n - 1] == 10 {
        assert(s@.skip(n - 4) =~= seq![13u8, 10u8, 13u8, 10u8]);
        return true;
    }
    proof {
        if n >= 4 {
            let t = s@.skip(n - 4);
            assert(t[0] == s@[n - 4] && t[1] == s@[n - 3] && t[2] == s@[n - 2] && t[3] == s@[n
                - 1]);
        }
    }
    false
}

/// The text of a response read as bytes: what they encode, without the white
/// space around it. Bytes that are no UTF-8 are refused.
pub fn response_text(bytes: Vec<u8>) -> (r: Option<String>)
    ensures
        match r {
            Some(s) => valid_utf8(bytes@) && s@ == trim(decode_utf8(bytes@)),
            None => !valid_utf8(bytes@),
        },
{
    match text_of_bytes(bytes) {
        Some(s) => {
            let v = chars_of(s.as_str());
            let from = skip_space(&v, 0);
            let to = drop_space(&v, from);
            proof {
                assert(v@.skip(0) =~= v@);
            }
            Some(string_of(&v, from, to))
        },
        None => None,
    }
}

/// The first word of a response to the command numbered `id`: `mark` is `=`
/// for success and `?` for failure.
pub open spec fn answer_mark(mark: char, id: nat) -> Seq<char> {
    seq![mark] + decimal(id)
}

/// `t` is the result that the response `response` gives to the command
/// numbered `id`: the response begins with `=` and the number, and `t` is
/// what follows as many characters as that first word has, without the white
/// space before it.
pub open spec fn is_result_of(t: Seq<char>, id: nat, response: Seq<char>) -> bool {
    &&& tokens(response).len() > 0
    &&& tokens(response)[0] == answer_mark('=', id)
    &&& t == trim_start(response.skip(tokens(response)[0].len() as int))
}

/// Whether `v[from..to]` is `mark` followed by the numeral of `id`.
fn is_mark(v: &Vec<char>, from: usize, to: usize, mark: char, id: u32) -> (r: bool)
    requires
        from <= to <= v@.len(),
    ensures
        r == (v@.subrange(from as int, to as int) == answer_mark(mark, id as nat)),
{
    let number = decimal_chars(id);
    let ghost word = v@.subrange(from as int, to as int);
    let ghost wanted = answer_mark(mark, id as nat);
    assert(wanted.len() == 1 + number@.len());
    assert(wanted[0] == mark);
    if to == from {
        return false;
    }
    if to - from - 1 != number.len() {
        return false;
    }
    if v[from] != mark {
        assert(word[0] != wanted[0]);
        return false;
    }
    let mut i: usize = 0;
    while i < number.len()
        invariant
            from < to <= v@.len(),
            to - from - 1 == number@.len(),
            word == v@.subrange(from as int, to as int),
            wanted == seq![mark] + number@,
            wanted == answer_mark(mark, id as nat),
            v@[from as int] == mark,
            i <= number@.len(),
            forall|j: int| 0 <= j < i ==> v@[from + 1 + j] == number@[j],
        decreases number@.len() - i,
    {
        if v[from + 1 + i] != number[i] {
            assert(word[1 + i] == v@[from + 1 + i]);
            assert(wanted[1 + i] == number@[i as int]);
            return false;
        }
        i += 1;
    }
    assert(word =~= wanted) by {
        assert forall|j: int| 0 <= j < word.len() implies word[j] == wanted[j] by {
            if j > 0 {
                assert(v@[from + 1 + (j - 1)] == number@[j - 1]);
            }
        }
    }
    true
}

/// What the response `response` to the command numbered `id` says: the result
/// after `=id`, the engine's message after `?id` as a failure, and anything else
/// as unexpected. Result and message are what follows as many characters as
/// the first word has, without the white space before it.
pub fn check_response(id: u32, response: String) -> (r: Result<String, GtpError>)
    ensures
        ({
            let words = tokens(response@);
            if words.len() == 0 {
                r == Err::<String, GtpError>(GtpError::EmptyResponse)
            } else {
                let rest = trim_start(response@.skip(words[0].len() as int));
                if words[0] == answer_mark('=', id as nat) {
                    r matches Ok(t) && t@ == rest
                } else if words[0] == answer_mark('?', id as nat) {
                    r matches Err(GtpError::Failure(m)) && m@ == rest
                } else {
                    r matches Err(GtpError::Unexpected(m)) && m@ == response@
                }
            }
        }),
{
    let v = chars_of(response.as_str());
    let bounds = word_bounds(&v);
    if bounds.len() == 0 {
        return Err(GtpError::EmptyResponse);
    }
    let (from, to) = bounds[0];
    assert(bounds@[0].0 < bounds@[0].1 <= v@.len());
    let length = to - from;
    assert(tokens(response@)[0].len() == length);
    if is_mark(&v, from, to, '=', id) {
        let k = skip_space(&v, length);
        proof {
            assert(v@.subrange(k as int, v@.len() as int) =~= v@.skip(k as int));
        }
        Ok(string_of(&v, k, v.len()))
    } else if is_mark(&v, from, to, '?', id) {
        let k = skip_space(&v, length);
        proof {
            assert(v@.subrange(k as int, v@.len() as int) =~= v@.skip(k as int));
        }
        Err(GtpError::Failure(string_of(&v, k, v.len())))
    } else {
        Err(GtpError::Unexpected(response))
    }
}

/// The answer to a question, which is `true` or `false`.
pub fn parse_known(s: &str) -> (r: Result<bool, GtpError>)
    ensures
        s@ == "true"@ ==> r == Ok::<bool, GtpError>(true),
        s@ == "false"@ ==> r == Ok::<bool, GtpError>(false),
        s@ != "true"@ && s@ != "false"@ ==> r == Err::<bool, GtpError>(GtpError::BadAnswer),
{
    let v = chars_of(s);
    proof {
        assert(v@.subrange(0, v@.len() as int) =~= v@);
        reveal_strlit("true");
        reveal_strlit("false");
    }
    if same_text(&v, 0, v.len(), "true") {
        Ok(true)
    } else if same_text(&v, 0, v.len(), "false") {
        Ok(false)
    } else {
        Err(GtpError::BadAnswer)
    }
}

/// The words of a response, each as a text of its own.
pub fn words(s: &str) -> (r: Vec<String>)
    ensures
        r@.len() == tokens(s@).len(),
        forall|j: int| 0 <= j < r@.len() ==> (#[trigger] r@[j])@ == tokens(s@)[j],
{
    let v = chars_of(s);
    let bounds = word_bounds(&v);
    let mut r: Vec<String> = Vec::new();
    let mut i: usize = 0;
    while i < bounds.len()
        invariant
            v@ == s@,
            i <= bounds@.len(),
            bounds@.len() == tokens(s@).len(),
            forall|j: int|
                0 <= j < bounds@.len() ==> {
                    &&& (#[trigger] bounds@[j]).0 < bounds@[j].1 <= v@.len()
                    &&& v@.subrange(bounds@[j].0 as int, bounds@[j].1 as int) == tokens(s@)[j]
                },
            r@.len() == i,
            forall|j: int| 0 <= j < i ==> (#[trigger] r@[j])@ == tokens(s@)[j],
        decreases bounds@.len() - i,
    {
        let (from, to) = bounds[i];
        assert(bounds@[i as int].0 < bounds@[i as int].1);
        r.push(string_of(&v, from, to));
        i += 1;
    }
    r
}

/// What the words `ws` mean as vertices, one after another: the vertices, or
/// the error of the first word that names none.
pub open spec fn parsed_vertices(ws: Seq<Seq<char>>) -> Result<Seq<Vertex>, GtpError>
    decreases ws.len(),
{
    if ws.len() == 0 {
        Ok(Seq::empty())
    } else {
        match parsed_vertices(ws.drop_last()) {
            Err(e) => Err(e),
            Ok(front) => match parsed_vertex(ws.last()) {
                Ok(v) => Ok(front.push(v)),
                Err(e) => Err(e),
            },
        }
    }
}

/// A list of words fails with the error of a part of it that fails.
proof fn lemma_parsed_vertices_fails(ws: Seq<Seq<char>>, k: int)
    requires
        0 <= k <= ws.len(),
        parsed_vertices(ws.take(k)) is Err,
    ensures
        parsed_vertices(ws) == parsed_vertices(ws.take(k)),
    decreases ws.len() - k,
{
    if k < ws.len() {
        assert(ws.take(k + 1).drop_last() =~= ws.take(k));
        lemma_parsed_vertices_fails(ws, k + 1);
    } else {
        assert(ws.take(k) =~= ws);
    }
}

/// The vertices that a response lists, separated by white space.
pub fn parse_vertices(s: &str) -> (r: Result<Vec<Vertex>, GtpError>)
    ensures
        match parsed_vertices(tokens(s@)) {
            Ok(vs) => r matches Ok(v) && v@ == vs,
            Err(e) => r == Err::<Vec<Vertex>, GtpError>(e),
        },
{
    let toks = split_whitespace(s);
    let ghost ws = tokens(s@);
    let mut v: Vec<Vertex> = Vec::new();
    let mut i: usize = 0;
    proof {
        assert(ws.take(0) =~= Seq::<Seq<char>>::empty());
    }
    while i < toks.len()
        invariant
            ws == tokens(s@),
            toks@.len() == ws.len(),
            forall|j: int| 0 <= j < toks@.len() ==> (#[trigger] toks@[j])@ == ws[j],
            i <= toks@.len(),
            parsed_vertices(ws.take(i as int)) == Ok::<Seq<Vertex>, GtpError>(v@),
        decreases toks@.len() - i,
    {
        proof {
            assert(ws.take(i + 1).drop_last() =~= ws.take(i as int));
            assert(ws.take(i + 1).last() == ws[i as int]);
        }
        match Vertex::from_string(toks[i]) {
            Ok(vertex) => {
                v.push(vertex);
            },
            Err(e) => {
                proof {
                    lemma_parsed_vertices_fails(ws, i + 1);
                }
                return Err(e);
            },
        }
        i += 1;
    }
    proof {
        assert(ws.take(i as int) =~= ws);
    }
    Ok(v)
}

impl GenMove {
    /// What the answer `s` to a request for a move means: `resign`, or the
    /// vertex to play.
    pub fn from_string(s: &str) -> (r: Result<GenMove, GtpError>)
        ensures
            s@ == "resign"@ ==> r == Ok::<GenMove, GtpError>(GenMove::Resign),
            s@ != "resign"@ ==> r == match parsed_vertex(s@) {
                Ok(v) => Ok::<GenMove, GtpError>(GenMove::Play(v)),
                Err(e) => Err::<GenMove, GtpError>(e),
            },
    {
        let v = chars_of(s);
        proof {
            assert(v@.subrange(0, v@.len() as int) =~= v@);
        }
        if same_text(&v, 0, v.len(), "resign") {
            Ok(GenMove::Resign)
        } else {
            match Vertex::from_string(s) {
                Ok(vertex) => Ok(GenMove::Play(vertex)),
                Err(e) => Err(e),
            }
        }
    }
}

/// The two sides of a score that names a winner, or nothing for a draw.
pub open spec fn score_sides(s: Seq<char>) -> Option<Option<(Seq<char>, Seq<char>)>> {
    if tokens(s).len() != 1 {
        None
    } else if s == "0"@ {
        Some(None)
    } else if exists|k: int| plus_alone(s, k) {
        let k = choose|k: int| plus_alone(s, k);
        Some(Some((s.take(k), s.skip(k + 1))))
    } else {
        None
    }
}

/// The only plus sign of `s` stands at `k`.
pub open spec fn plus_alone(s: Seq<char>, k: int) -> bool {
    &&& 0 <= k < s.len()
    &&& forall|i: int| 0 <= i < s.len() ==> ((#[trigger] s[i] == '+') <==> i == k)
}

/// Cuts a score into the winner and the amount: `0` is a draw, and any other
/// score holds one word with exactly one plus sign, which parts the two.
pub fn split_score<'a>(s: &'a str) -> (r: Result<Option<(&'a str, &'a str)>, GtpError>)
    ensures
        tokens(s@).len() != 1 ==> r == Err::<Option<(&str, &str)>, GtpError>(
            GtpError::NotSingleToken,
        ),
        tokens(s@).len() == 1 ==> match score_sides(s@) {
            Some(Some(sides)) => r matches Ok(Some(pair)) && pair.0@ == sides.0 && pair.1@
                == sides.1,
            Some(None) => r matches Ok(None),
            None => r == Err::<Option<(&str, &str)>, GtpError>(GtpError::IllegalScore),
        },
{
    if !is_single_token(s) {
        return Err(GtpError::NotSingleToken);
    }
    let v = chars_of(s);
    proof {
        assert(v@.subrange(0, v@.len() as int) =~= v@);
    }
    if same_text(&v, 0, v.len(), "0") {
        return Ok(None);
    }
    let mut at: usize = 0;
    let mut count: usize = 0;
    let mut i: usize = 0;
    while i < v.len()
        invariant
            i <= v@.len(),
            count <= i,
            count == 0 ==> forall|j: int| 0 <= j < i ==> v@[j] != '+',
            count == 1 ==> at < i && forall|j: int| 0 <= j < i ==> ((v@[j] == '+') <==> j == at),
            count >= 2 ==> exists|a: int, b: int|
                0 <= a < b < i && v@[a] == '+' && v@[b] == '+',
        decreases v@.len() - i,
    {
        if v[i] == '+' {
            proof {
                if count == 1 {
                    assert(0 <= at < i < i + 1 && v@[at as int] == '+' && v@[i as int] == '+');
                }
                if count >= 2 {
                    let (a, b) = choose|a: int, b: int|
                        0 <= a < b < i && v@[a] == '+' && v@[b] == '+';
                    assert(0 <= a < b < i + 1 && v@[a] == '+' && v@[b] == '+');
                }
            }
            at = i;
            count += 1;
        } else {
            proof {
                if count >= 2 {
                    let (a, b) = choose|a: int, b: int|
                        0 <= a < b < i && v@[a] == '+' && v@[b] == '+';
                    assert(0 <= a < b < i + 1 && v@[a] == '+' && v@[b] == '+');
                }
            }
        }
        i += 1;
    }
    if count != 1 {
        proof {
            if exists|k: int| plus_alone(s@, k) {
                let k = choose|k: int| plus_alone(s@, k);
                if count == 0 {
                    assert(s@[k] == '+');
                } else {
                    let (a, b) = choose|a: int, b: int|
                        0 <= a < b < i && v@[a] == '+' && v@[b] == '+';
                    assert((s@[a] == '+') <==> a == k);
                    assert((s@[b] == '+') <==> b == k);
                }
            }
        }
        return Err(GtpError::IllegalScore);
    }
    proof {
        assert(plus_alone(s@, at as int));
        let k = choose|k: int| plus_alone(s@, k);
        assert((s@[at as int] == '+') <==> at == k);
        assert(s@.subrange(0, at as int) =~= s@.take(at as int));
        assert(s@.subrange(at + 1, s@.len() as int) =~= s@.skip(at + 1));
    }
    Ok(Some((s.substring_char(0, at), s.substring_char(at + 1, v.len()))))
}

/// The winner that a score names: `B` or `W`.
pub fn score_color(s: &str) -> (r: Result<Color, GtpError>)
    ensures
        s@ == "B"@ ==> r == Ok::<Color, GtpError>(Color::Black),
        s@ == "W"@ ==> r == Ok::<Color, GtpError>(Color::White),
        s@ != "B"@ && s@ != "W"@ ==> r == Err::<Color, GtpError>(GtpError::IllegalScore),
{
    let v = chars_of(s);
    proof {
        assert(v@.subrange(0, v@.len() as int) =~= v@);
        reveal_strlit("B");
        reveal_strlit("W");
        assert("B"@[0] == 'B' && "W"@[0] == 'W');
    }
    if same_text(&v, 0, v.len(), "B") {
        Ok(Color::Black)
    } else if same_text(&v, 0, v.len(), "W") {
        Ok(Color::White)
    } else {
        Err(GtpError::IllegalScore)
    }
}

/// An engine that can be written to and read from. The numbering of commands
/// and the two ends of the pipe are the engine's own; the sending of a
/// command is built on them.
pub trait GTPEngineRaw {
    /// The number for the next command; zero for an engine that does not
    /// number its commands.
    fn gen_command_id(&mut self) -> (id: u32)
        default_ensures
            id == 0,
    {
        0
    }

    /// Sends the text `s` to the engine.
    fn write_to_engine(&self, s: &str) -> Result<(), GtpError>;

    /// Reads one response of the engine.
    fn read_from_engine(&mut self) -> Result<String, GtpError>;

    /// Sends `command` under a fresh number and returns what the engine's
    /// response to it says. The writing and the reading are the engine's, and
    /// either may fail; a result that is returned is the result of a response
    /// that answers a command with success.
    fn send_command(&mut self, command: &str) -> (r: Result<String, GtpError>)
        default_ensures
            r matches Ok(t) ==> exists|id: u32, response: Seq<char>|
                is_result_of(t@, id as nat, response),
    {
        let id = self.gen_command_id();
        let command = command_line(id, command);
        self.write_to_engine(command.as_str())?;
        let response_str = self.read_from_engine()?;
        let ghost response = response_str@;
        let r = check_response(id, response_str);
        proof {
            if r is Ok {
                assert(is_result_of(r->Ok_0@, id as nat, response));
            }
        }
        r
    }
}

/// The tournament commands.
pub trait GTPEngineTournament {
    fn fixed_handicap(&mut self, number_of_stones: u32) -> Result<Vec<Vertex>, GtpError>;

    fn place_free_handicap(&mut self, number_of_stones: u32) -> Result<Vec<Vertex>, GtpError>;

    fn set_free_handicap(&mut self, vertices: Vec<Vertex>) -> Result<(), GtpError>;
}

/// The regression commands.
pub trait GTPEngineRegression {
    fn loadsgf(&mut self, filename: &str, move_number: u32) -> Result<(), GtpError>;

    fn reg_genmove(&mut self, color: Color) -> Result<GenMove, GtpError>;
}

/// The extended core play commands.
pub trait GTPEngineExtendedCorePlay {
    fn undo(&mut self) -> Result<(), GtpError>;
}

/// The debug commands.
pub trait GTPEngineDebug {
    fn showboard(&mut self) -> Result<String, GtpError>;
}

} // verus!
