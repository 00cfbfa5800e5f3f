use vstd::prelude::*;
use crate::error::JsonError;
use crate::reader::chars_of;
use crate::lexer::{Tok, Token, TokenReader, lex, lemma_lex_shrinks, result_view};

verus! {

/// The mathematical value of a JSON tree. An object is its keys and, at the
/// same positions, their values.
pub enum Json {
    Str(Seq<char>),
    Bool(bool),
    Num(Seq<char>),
    Obj(Seq<Seq<char>>, Seq<Json>),
    Arr(Seq<Json>),
    Null,
}

/// A parsed JSON tree. Number text is kept as written.
#[derive(Debug, PartialEq)]
pub enum JVal {
    JString(String),
    JBool(bool),
    JNum(String),
    JObject(JMap),
    JArray(Vec<JVal>),
    JNull,
}

/// The members of an object: unique keys, each with its value.
#[derive(Debug, PartialEq)]
pub struct JMap {
    keys: Vec<String>,
    vals: Vec<JVal>,
}

pub open spec fn key_views(keys: Seq<String>) -> Seq<Seq<char>> {
    keys.map_values(|k: String| k@)
}

impl JVal {
    /// The mathematical value of this tree.
    pub closed spec fn model(self) -> Json
        decreases self,
    {
        match self {
            JVal::JString(s) => Json::Str(s@),
            JVal::JBool(b) => Json::Bool(b),
            JVal::JNum(s) => Json::Num(s@),
            JVal::JObject(m) => Json::Obj(
                key_views(m.keys@),
                Seq::new(m.vals.len() as nat, |i: int| if 0 <= i < m.vals.len() { m.vals[i].model() } else { Json::Null }),
            ),
            JVal::JArray(v) => Json::Arr(
                Seq::new(v.len() as nat, |i: int| if 0 <= i < v.len() { v[i].model() } else { Json::Null }),
            ),
            JVal::JNull => Json::Null,
        }
    }
}


/// The value that a scalar token stands for.
pub open spec fn atom(t: Tok) -> Option<Json> {
    match t {
        Tok::Str(s) => Some(Json::Str(s)),
        Tok::Number(n) => Some(Json::Num(n)),
        Tok::Bool(b) => Some(Json::Bool(b)),
        Tok::Null => Some(Json::Null),
        _ => None,
    }
}

/// The position of `k` in `keys`, searching from the end; -1 where it is absent.
pub open spec fn key_index(keys: Seq<Seq<char>>, k: Seq<char>) -> int
    decreases keys.len(),
{
    if keys.len() == 0 {
        -1
    } else if keys.last() == k {
        keys.len() - 1
    } else {
        key_index(keys.drop_last(), k)
    }
}

/// An object's keys and values after `k` is set to `v`: the value of a key that
/// is present is replaced, a new key is added at the end.
pub open spec fn obj_insert(keys: Seq<Seq<char>>, vals: Seq<Json>, k: Seq<char>, v: Json) -> (Seq<Seq<char>>, Seq<Json>) {
    let i = key_index(keys, k);
    if i >= 0 {
        (keys, vals.update(i, v))
    } else {
        (keys.push(k), vals.push(v))
    }
}

/// Whether `t` opens a container.
pub open spec fn opens(t: Tok) -> bool {
    t == Tok::OpenObject || t == Tok::OpenArray
}

/// A container whose opening token is consumed: its value and the characters
/// after its closing token.
pub open spec fn parse_container(is_obj: bool, s: Seq<char>) -> Result<(Json, Seq<char>), JsonError>
    decreases s.len(), 1int,
{
    if is_obj {
        parse_members(s, seq![], seq![], false)
    } else {
        parse_elements(s, seq![], false)
    }
}

/// The rest of an array that holds `items` so far; `comma` tells whether a
/// separator came after the last of them.
pub open spec fn parse_elements(s: Seq<char>, items: Seq<Json>, comma: bool) -> Result<(Json, Seq<char>), JsonError>
    decreases s.len(), 0int,
{
    match lex(s) {
        None => Err(JsonError::UnclosedStructure),
        Some((Err(e), _)) => Err(e),
        Some((Ok(t), r)) => {
            if r.len() >= s.len() {
                Err(JsonError::UnclosedStructure)
            } else if t == Tok::CloseArray {
                if comma {
                    Err(JsonError::MissingComma)
                } else {
                    Ok((Json::Arr(items), r))
                }
            } else if t == Tok::Comma {
                if items.len() == 0 || comma {
                    Err(JsonError::MissingComma)
                } else {
                    parse_elements(r, items, true)
                }
            } else if items.len() > 0 && !comma {
                Err(JsonError::MissingComma)
            } else if opens(t) {
                match parse_container(t == Tok::OpenObject, r) {
                    Err(e) => Err(e),
                    Ok((v, r2)) => {
                        if r2.len() >= r.len() {
                            Err(JsonError::UnclosedStructure)
                        } else {
                            parse_elements(r2, items.push(v), false)
                        }
                    },
                }
            } else {
                match atom(t) {
                    None => Err(JsonError::InvalidArrayStructure),
                    Some(v) => parse_elements(r, items.push(v), false),
                }
            }
        },
    }
}

/// The rest of an object that holds `keys` and `vals` so far; `comma` tells
/// whether a separator came after the last member.
pub open spec fn parse_members(s: Seq<char>, keys: Seq<Seq<char>>, vals: Seq<Json>, comma: bool) -> Result<(Json, Seq<char>), JsonError>
    decreases s.len(), 0int,
{
    match lex(s) {
        None => Err(JsonError::UnclosedStructure),
        Some((Err(e), _)) => Err(e),
        Some((Ok(t), r)) => {
            if r.len() >= s.len() {
                Err(JsonError::UnclosedStructure)
            } else if t == Tok::CloseObject {
                if comma {
                    Err(JsonError::MissingComma)
                } else {
                    Ok((Json::Obj(keys, vals), r))
                }
            } else if t == Tok::Comma {
                if keys.len() == 0 || comma {
                    Err(JsonError::MissingComma)
                } else {
                    parse_members(r, keys, vals, true)
                }
            } else if let Tok::Str(k) = t {
                match lex(r) {
                    None => Err(JsonError::UnexpectedEof),
                    Some((Err(e), _)) => Err(e),
                    Some((Ok(c), r1)) => {
                        if c != Tok::Colon {
                            Err(JsonError::MissingColon)
                        } else {
                            match lex(r1) {
                                None => Err(JsonError::UnexpectedEof),
                                Some((Err(e), _)) => Err(e),
                                Some((Ok(t2), r2)) => {
                                    if r2.len() >= s.len() {
                                        Err(JsonError::UnclosedStructure)
                                    } else if keys.len() > 0 && !comma {
                                        Err(JsonError::MissingComma)
                                    } else if opens(t2) {
                                        match parse_container(t2 == Tok::OpenObject, r2) {
                                            Err(e) => Err(e),
                                            Ok((v, r3)) => {
                                                if r3.len() >= r2.len() {
                                                    Err(JsonError::UnclosedStructure)
                                                } else {
                                                    let (k2, v2) = obj_insert(keys, vals, k, v);
                                                    parse_members(r3, k2, v2, false)
                                                }
                                            },
                                        }
                                    } else {
                                        match atom(t2) {
                                            None => Err(JsonError::InvalidObjectStructure),
                                            Some(v) => {
                                                let (k2, v2) = obj_insert(keys, vals, k, v);
                                                parse_members(r2, k2, v2, false)
                                            },
                                        }
                                    }
                                },
                            }
                        }
                    },
                }
            } else {
                Err(JsonError::InvalidObjectStructure)
            }
        },
    }
}

/// The value of the document `s`, or the first error met reading it from the
/// front. Whatever follows the root's closing token is not read.
pub open spec fn parse_document(s: Seq<char>) -> Result<Json, JsonError> {
    match lex(s) {
        None => Err(JsonError::UnexpectedEof),
        Some((Err(e), _)) => Err(e),
        Some((Ok(t), r)) => {
            if opens(t) {
                match parse_container(t == Tok::OpenObject, r) {
                    Ok((v, _)) => Ok(v),
                    Err(e) => Err(e),
                }
            } else {
                Err(JsonError::InvalidStart)
            }
        },
    }
}


/// The mathematical values of a sequence of trees.
pub open spec fn models(v: Seq<JVal>) -> Seq<Json> {
    Seq::new(v.len(), |i: int| v[i].model())
}

pub open spec fn result_model(r: Result<JVal, JsonError>) -> Result<Json, JsonError> {
    match r {
        Ok(v) => Ok(v.model()),
        Err(e) => Err(e),
    }
}

proof fn lemma_array_model(v: Vec<JVal>)
    ensures
        JVal::JArray(v).model() == Json::Arr(models(v@)),
{
    if let Json::Arr(a) = JVal::JArray(v).model() {
        assert(a =~= models(v@));
    }
}

proof fn lemma_object_model(m: JMap)
    ensures
        JVal::JObject(m).model() == Json::Obj(m.keys_view(), m.vals_model()),
{
    if let Json::Obj(k, a) = JVal::JObject(m).model() {
        assert(a =~= m.vals_model());
    }
}


/// `key_index` finds `k` exactly where it stands, and -1 only where it is absent.
pub proof fn lemma_key_index(keys: Seq<Seq<char>>, k: Seq<char>)
    ensures
        key_index(keys, k) < 0 ==> !keys.contains(k),
        key_index(keys, k) >= 0 ==> key_index(keys, k) < keys.len() && keys[key_index(keys, k)] == k,
    decreases keys.len(),
{
    if keys.len() > 0 && keys.last() != k {
        lemma_key_index(keys.drop_last(), k);
        if key_index(keys, k) < 0 {
            assert forall|i: int| 0 <= i < keys.len() implies keys[i] != k by {
                if i < keys.len() - 1 {
                    assert(keys.drop_last()[i] == keys[i]);
                }
            }
        }
    }
}

/// Setting a key keeps the keys free of repeats, and keeps one value per key.
pub proof fn lemma_obj_insert_unique(keys: Seq<Seq<char>>, vals: Seq<Json>, k: Seq<char>, v: Json)
    requires
        keys.no_duplicates(),
        keys.len() == vals.len(),
    ensures
        obj_insert(keys, vals, k, v).0.no_duplicates(),
        obj_insert(keys, vals, k, v).0.len() == obj_insert(keys, vals, k, v).1.len(),
        obj_insert(keys, vals, k, v).0.contains(k),
{
    lemma_key_index(keys, k);
    let ks = obj_insert(keys, vals, k, v).0;
    if key_index(keys, k) < 0 {
        assert(ks[keys.len() as int] == k);
        assert forall|i: int, j: int| 0 <= i < ks.len() && 0 <= j < ks.len() && i != j implies ks[i] != ks[j] by {
            if i < keys.len() && j < keys.len() {
                assert(keys[i] != keys[j]);
            } else if i < keys.len() {
                assert(keys.contains(keys[i]));
            } else {
                assert(keys.contains(keys[j]));
            }
        }
    } else {
        assert(ks[key_index(keys, k)] == k);
    }
}

impl JMap {
    /// The keys, in the order they were first set.
    pub closed spec fn keys_view(&self) -> Seq<Seq<char>> {
        key_views(self.keys@)
    }

    /// The values, at the positions of their keys.
    pub closed spec fn vals_model(&self) -> Seq<Json> {
        models(self.vals@)
    }

    /// One value per key, and no key twice.
    pub closed spec fn wf(&self) -> bool {
        &&& self.keys.len() == self.vals.len()
        &&& self.keys_view().no_duplicates()
    }

    pub fn new() -> (r: Self)
        ensures
            r.wf(),
            r.keys_view() == Seq::<Seq<char>>::empty(),
            r.vals_model() == Seq::<Json>::empty(),
    {
        let r = JMap { keys: Vec::new(), vals: Vec::new() };
        assert(r.keys_view() =~= Seq::<Seq<char>>::empty());
        assert(r.keys_view().no_duplicates());
        assert(r.vals_model() =~= Seq::<Json>::empty());
        r
    }

    /// The number of members.
    pub fn len(&self) -> (r: usize)
        requires
            self.wf(),
        ensures
            r == self.keys_view().len(),
    {
        self.keys.len()
    }

    /// Where `k` stands among the keys, searching from the end.
    fn find(&self, k: &String) -> (r: Option<usize>)
        requires
            self.wf(),
        ensures
            match r {
                Some(i) => i < self.keys.len() && key_index(self.keys_view(), k@) == i,
                None => key_index(self.keys_view(), k@) < 0,
            },
    {
        let ghost kv = self.keys_view();
        let mut i: usize = self.keys.len();
        assert(kv.take(i as int) =~= kv);
        assert(kv.len() == self.keys.len());
        while i > 0
            invariant
                i <= self.keys.len(),
                kv == self.keys_view(),
                kv.len() == self.keys.len(),
                key_index(kv, k@) == key_index(kv.take(i as int), k@),
            decreases i,
        {
            let ghost t = kv.take(i as int);
            assert(t.drop_last() =~= kv.take(i - 1));
            assert(t.last() == self.keys@[i - 1]@);
            if self.keys[i - 1] == *k {
                return Some(i - 1);
            }
            i = i - 1;
        }
        assert(kv.take(0) =~= Seq::<Seq<char>>::empty());
        None
    }

    /// Sets `k` to `v`: replaces the value of a present key, else adds the key
    /// at the end.
    pub fn insert(&mut self, k: String, v: JVal)
        requires
            old(self).wf(),
        ensures
            final(self).wf(),
            (final(self).keys_view(), final(self).vals_model()) == obj_insert(
                old(self).keys_view(),
                old(self).vals_model(),
                k@,
                v.model(),
            ),
    {
        let ghost vm = v.model();
        proof {
            lemma_obj_insert_unique(self.keys_view(), self.vals_model(), k@, vm);
        }
        match self.find(&k) {
            Some(i) => {
                assert(key_index(self.keys_view(), k@) == i);
                self.vals.set(i, v);
                assert(self.keys_view() == old(self).keys_view());
                assert(self.vals_model() =~= old(self).vals_model().update(i as int, vm));
            },
            None => {
                assert(key_index(self.keys_view(), k@) < 0);
                proof {
                    lemma_key_index(self.keys_view(), k@);
                }
                self.keys.push(k);
                self.vals.push(v);
                assert(self.keys_view() =~= old(self).keys_view().push(k@));
                assert(self.vals_model() =~= old(self).vals_model().push(vm));
            },
        }
    }

    /// The value under `key`, if it is present.
    pub fn get(&self, key: &str) -> (r: Option<&JVal>)
        requires
            self.wf(),
        ensures
            key_index(self.keys_view(), key@) < 0 ==> r.is_none(),
            key_index(self.keys_view(), key@) >= 0 ==> r.is_some() && r.unwrap().model()
                == self.vals_model()[key_index(self.keys_view(), key@)],
    {
        let k = key.to_owned();
        match self.find(&k) {
            Some(i) => {
                assert(self.vals_model()[i as int] == self.vals@[i as int].model());
                Some(&self.vals[i])
            },
            None => None,
        }
    }
}


/// The mathematical value of an open container on the work stack: what it
/// holds so far, the key that waits for a nested value (objects), whether a
/// separator is pending, and how many characters were left after its opening
/// token.
pub struct SFrame {
    pub is_obj: bool,
    pub keys: Seq<Seq<char>>,
    pub vals: Seq<Json>,
    pub key: Seq<char>,
    pub comma: bool,
    pub start: nat,
}

/// What reading the rest of the container `f` from `s` gives.
pub open spec fn run_frame(f: SFrame, s: Seq<char>) -> Result<(Json, Seq<char>), JsonError> {
    if f.is_obj {
        parse_members(s, f.keys, f.vals, f.comma)
    } else {
        parse_elements(s, f.vals, f.comma)
    }
}

/// The container `f` once the nested value `v` is added to it.
pub open spec fn attach(f: SFrame, v: Json) -> SFrame {
    if f.is_obj {
        let (k2, v2) = obj_insert(f.keys, f.vals, f.key, v);
        SFrame { keys: k2, vals: v2, key: seq![], comma: false, ..f }
    } else {
        SFrame { vals: f.vals.push(v), comma: false, ..f }
    }
}

/// What the document gives when the open containers are `fr`, outermost first,
/// and `s` is left to read: the innermost is read to its end, its value goes to
/// the one around it, and so on out to the root.
pub open spec fn resume(fr: Seq<SFrame>, s: Seq<char>) -> Result<Json, JsonError>
    decreases fr.len(),
{
    if fr.len() == 0 {
        Err(JsonError::UnclosedStructure)
    } else {
        let top = fr.last();
        match run_frame(top, s) {
            Err(e) => Err(e),
            Ok((v, r)) => {
                if fr.len() == 1 {
                    Ok(v)
                } else if r.len() >= top.start {
                    Err(JsonError::UnclosedStructure)
                } else {
                    let n = fr.len() - 2;
                    resume(fr.drop_last().update(n, attach(fr[n], v)), r)
                }
            },
        }
    }
}

proof fn lemma_resume_top(fr: Seq<SFrame>, s: Seq<char>, f: SFrame, s2: Seq<char>)
    requires
        fr.len() > 0,
        f.start == fr.last().start,
        run_frame(f, s2) == run_frame(fr.last(), s),
    ensures
        resume(fr.update(fr.len() - 1, f), s2) == resume(fr, s),
{
    let fr2 = fr.update(fr.len() - 1, f);
    assert(fr2.drop_last() =~= fr.drop_last());
}

/// An open container on the work stack. An object carries the key under which
/// the nested container being read will be stored.
enum ParseState {
    Object(JMap, String),
    Array(Vec<JVal>),
}

spec fn frame_of(st: ParseState, comma: bool, start: nat) -> SFrame {
    match st {
        ParseState::Object(m, k) => SFrame {
            is_obj: true,
            keys: m.keys_view(),
            vals: m.vals_model(),
            key: k@,
            comma,
            start,
        },
        ParseState::Array(v) => SFrame {
            is_obj: false,
            keys: seq![],
            vals: models(v@),
            key: seq![],
            comma,
            start,
        },
    }
}

spec fn state_wf(st: ParseState) -> bool {
    match st {
        ParseState::Object(m, _) => m.wf(),
        ParseState::Array(_) => true,
    }
}

spec fn frames_of(st: Seq<ParseState>, commas: Seq<bool>, starts: Seq<nat>) -> Seq<SFrame> {
    Seq::new(st.len(), |i: int| frame_of(st[i], commas[i], starts[i]))
}

/// Checks the separator before an element of the innermost open container,
/// which holds `length` elements so far; its flag in `comma_stack` tells whether
/// a comma came after the last of them. On success the flag is cleared.
pub fn check_comma(length: usize, comma_stack: &mut Vec<bool>) -> (r: Result<(), JsonError>)
    ensures
        r is Err <==> length > 0 && !(old(comma_stack)@.len() > 0 && old(comma_stack)@.last()),
        r is Err ==> r == Err::<(), JsonError>(JsonError::MissingComma) && final(comma_stack)@ == old(comma_stack)@,
        r is Ok ==> final(comma_stack)@ == if old(comma_stack)@.len() > 0 {
            old(comma_stack)@.update(old(comma_stack)@.len() - 1, false)
        } else {
            old(comma_stack)@
        },
{
    let n = comma_stack.len();
    let seen = n > 0 && comma_stack[n - 1];
    if length > 0 && !seen {
        return Err(JsonError::MissingComma);
    }
    if n > 0 {
        comma_stack.set(n - 1, false);
    }
    Ok(())
}

/// Records a comma in the innermost open container, which holds `length`
/// elements: it must follow an element and no other comma.
fn note_comma(length: usize, comma_stack: &mut Vec<bool>) -> (r: Result<(), JsonError>)
    requires
        old(comma_stack)@.len() > 0,
    ensures
        r is Err <==> length == 0 || old(comma_stack)@.last(),
        r is Err ==> r == Err::<(), JsonError>(JsonError::MissingComma),
        r is Ok ==> final(comma_stack)@ == old(comma_stack)@.update(old(comma_stack)@.len() - 1, true),
{
    let n = comma_stack.len();
    if length == 0 || comma_stack[n - 1] {
        return Err(JsonError::MissingComma);
    }
    comma_stack.set(n - 1, true);
    Ok(())
}

/// The value of a scalar token.
fn to_atom(t: Token) -> (r: Option<JVal>)
    ensures
        match r {
            Some(v) => atom(t@) == Some(v.model()),
            None => atom(t@).is_none(),
        },
{
    match t {
        Token::TString(s) => Some(JVal::JString(s)),
        Token::TNumber(n) => Some(JVal::JNum(n)),
        Token::TBool(b) => Some(JVal::JBool(b)),
        Token::TNull => Some(JVal::JNull),
        _ => None,
    }
}


/// Whether `t` opens a container, and if so whether an object.
fn token_opens(t: &Token) -> (r: Option<bool>)
    ensures
        r == if opens(t@) { Some(t@ == Tok::OpenObject) } else { None::<bool> },
{
    match t {
        Token::OpenObject => Some(true),
        Token::OpenArray => Some(false),
        _ => None,
    }
}

fn new_state(is_obj: bool) -> (r: ParseState)
    ensures
        state_wf(r),
        frame_of(r, false, 0) == (SFrame {
            is_obj,
            keys: seq![],
            vals: seq![],
            key: seq![],
            comma: false,
            start: 0,
        }),
{
    if is_obj {
        let r = ParseState::Object(JMap::new(), String::new());
        r
    } else {
        let r = ParseState::Array(Vec::new());
        assert(models(Seq::<JVal>::empty()) =~= Seq::<Json>::empty());
        r
    }
}

proof fn lemma_models_push(v: Seq<JVal>, x: JVal)
    ensures
        models(v.push(x)) == models(v).push(x.model()),
{
    assert(models(v.push(x)) =~= models(v).push(x.model()));
}


/// Adds the finished nested value `value` to the innermost open container: to
/// an array at its end, to an object under the key that waits for it.
fn attach_value(state_stack: &mut Vec<ParseState>, value: JVal)
    requires
        old(state_stack)@.len() > 0,
        state_wf(old(state_stack)@.last()),
    ensures
        final(state_stack)@.len() == old(state_stack)@.len(),
        final(state_stack)@.drop_last() == old(state_stack)@.drop_last(),
        state_wf(final(state_stack)@.last()),
        forall|st: nat|
            frame_of(final(state_stack)@.last(), false, st) == #[trigger] attach(
                frame_of(old(state_stack)@.last(), false, st),
                value.model(),
            ),
{
    let ghost vm = value.model();
    let parent = state_stack.pop().unwrap();
    match parent {
        ParseState::Array(mut items) => {
            proof {
                lemma_models_push(items@, value);
            }
            items.push(value);
            state_stack.push(ParseState::Array(items));
        },
        ParseState::Object(mut map, key) => {
            map.insert(key, value);
            state_stack.push(ParseState::Object(map, String::new()));
        },
    }
    assert(final(state_stack)@.drop_last() =~= old(state_stack)@.drop_last());
}

/// Reads one JSON document from `iter`: a root object or array, built with an
/// explicit work stack so that nesting depth is bounded by memory alone. The
/// result is exactly the one that the grammar of `parse_document` gives.
pub fn parse(iter: &mut TokenReader) -> (r: Result<JVal, JsonError>)
    requires
        old(iter).wf(),
    ensures
        result_model(r) == parse_document(old(iter)@),
{
    let ghost s0 = iter@;
    proof {
        lemma_lex_shrinks(s0);
    }
    let first = match iter.next() {
        None => {
            return Err(JsonError::UnexpectedEof);
        },
        Some(Err(e)) => {
            return Err(e);
        },
        Some(Ok(t)) => t,
    };
    let is_obj = match token_opens(&first) {
        Some(b) => b,
        None => {
            return Err(JsonError::InvalidStart);
        },
    };
    let mut state_stack: Vec<ParseState> = Vec::new();
    let mut comma_stack: Vec<bool> = Vec::new();
    state_stack.push(new_state(is_obj));
    comma_stack.push(false);
    let ghost mut starts: Seq<nat> = seq![iter@.len()];
    proof {
        let fr = frames_of(state_stack@, comma_stack@, starts);
        assert(fr.len() == 1);
        assert(run_frame(fr[0], iter@) == parse_container(is_obj, iter@));
    }
    loop
        invariant
            iter.wf(),
            state_stack@.len() == comma_stack@.len(),
            comma_stack@.len() == starts.len(),
            starts.len() > 0,
            forall|i: int| 0 <= i < state_stack@.len() ==> state_wf(#[trigger] state_stack@[i]),
            forall|i: int| 0 <= i < comma_stack@.len() - 1 ==> !#[trigger] comma_stack@[i],
            forall|i: int, j: int| 0 <= i < j < starts.len() ==> #[trigger] starts[j] < #[trigger] starts[i],
            iter@.len() <= starts.last(),
            s0 == old(iter)@,
            resume(frames_of(state_stack@, comma_stack@, starts), iter@) == parse_document(s0),
        decreases iter@.len(),
    {
        let ghost s = iter@;
        let ghost fr = frames_of(state_stack@, comma_stack@, starts);
        let ghost st0 = state_stack@;
        let ghost cs0 = comma_stack@;
        let ghost ss0 = starts;
        let ghost n = fr.len() - 1;
        let ghost top = fr[n];
        proof {
            lemma_lex_shrinks(s);
        }
        let state = match state_stack.pop() {
            Some(st) => st,
            None => {
                return Err(JsonError::UnclosedStructure);
            },
        };
        assert(top == frame_of(state, comma_stack@[n], starts[n]));
        let tok = match iter.next() {
            None => {
                assert(run_frame(top, s) == Err::<(Json, Seq<char>), JsonError>(JsonError::UnclosedStructure));
                assert(fr.last() == top);
                assert(resume(fr, s) == Err::<Json, JsonError>(JsonError::UnclosedStructure));
                return Err(JsonError::UnclosedStructure);
            },
            Some(Err(e)) => {
                assert(run_frame(top, s) == Err::<(Json, Seq<char>), JsonError>(e));
                assert(fr.last() == top);
                return Err(e);
            },
            Some(Ok(t)) => t,
        };
        let ghost r = iter@;
        assert(r.len() < s.len());
        match state {
            ParseState::Array(mut items) => {
                let ghost iv = items@;
                if let Token::CloseArray = tok {
                    if comma_stack[comma_stack.len() - 1] {
                        assert(fr.last() == top);
                        return Err(JsonError::MissingComma);
                    }
                    comma_stack.pop();
                    proof {
                        starts = starts.drop_last();
                    }
                    let value = JVal::JArray(items);
                    proof {
                        lemma_array_model(items);
                        assert(fr.last() == top);
                    }
                    if state_stack.len() == 0 {
                        return Ok(value);
                    }
                    let ghost pre = state_stack@;
                    let ghost vm = value.model();
                    attach_value(&mut state_stack, value);
                    proof {
                        assert(comma_stack@[n - 1] == false);
                        assert(pre.last() == pre[n - 1]);
                        assert(frame_of(state_stack@.last(), false, starts[n - 1]) == attach(
                            frame_of(pre.last(), false, starts[n - 1]),
                            vm,
                        ));
                        assert forall|i: int| 0 <= i < n - 1 implies state_stack@[i] == st0[i] by {
                            assert(state_stack@.drop_last()[i] == pre.drop_last()[i]);
                        }
                        assert(pre[n - 1] == st0[n - 1]);
                        assert(fr[n - 1] == frame_of(st0[n - 1], false, ss0[n - 1]));
                        assert forall|i: int| 0 <= i < n - 1 implies state_wf(#[trigger] state_stack@[i]) by {
                            assert(state_wf(st0[i]));
                        }
                        assert(frames_of(state_stack@, comma_stack@, starts) =~= fr.drop_last().update(
                            n - 1,
                            attach(fr[n - 1], vm),
                        ));
                    }
                } else if let Token::Comma = tok {
                    match note_comma(items.len(), &mut comma_stack) {
                        Err(e) => {
                            assert(fr.last() == top);
                            return Err(e);
                        },
                        Ok(()) => {},
                    }
                    state_stack.push(ParseState::Array(items));
                    proof {
                        let f = SFrame { comma: true, ..top };
                        assert(frames_of(state_stack@, comma_stack@, starts) =~= fr.update(n, f));
                        lemma_resume_top(fr, s, f, r);
                    }
                } else {
                    match check_comma(items.len(), &mut comma_stack) {
                        Err(e) => {
                            assert(fr.last() == top);
                            return Err(e);
                        },
                        Ok(()) => {},
                    }
                    match token_opens(&tok) {
                        Some(child_obj) => {
                            state_stack.push(ParseState::Array(items));
                            state_stack.push(new_state(child_obj));
                            comma_stack.push(false);
                            proof {
                                let top_c = SFrame { comma: false, ..top };
                                let child = SFrame {
                                    is_obj: child_obj,
                                    keys: seq![],
                                    vals: seq![],
                                    key: seq![],
                                    comma: false,
                                    start: r.len(),
                                };
                                starts = starts.push(r.len());
                                let fr2 = fr.update(n, top_c).push(child);
                                assert(frames_of(state_stack@, comma_stack@, starts) =~= fr2);
                                assert(fr2.drop_last() =~= fr.update(n, top_c));
                                assert(run_frame(child, r) == parse_container(child_obj, r));
                                match parse_container(child_obj, r) {
                                    Ok((v, r2)) => {
                                        if r2.len() < r.len() {
                                            lemma_resume_top(fr, s, attach(top_c, v), r2);
                                            assert(fr.update(n, top_c).update(n, attach(top_c, v)) =~= fr.update(n, attach(top_c, v)));
                                        }
                                    },
                                    Err(_) => {},
                                }
                            }
                        },
                        None => {
                            match to_atom(tok) {
                                None => {
                                    assert(fr.last() == top);
                                    return Err(JsonError::InvalidArrayStructure);
                                },
                                Some(v) => {
                                    proof {
                                        lemma_models_push(items@, v);
                                    }
                                    let ghost vm = v.model();
                                    items.push(v);
                                    state_stack.push(ParseState::Array(items));
                                    proof {
                                        let f = SFrame { vals: top.vals.push(vm), comma: false, ..top };
                                        assert(frames_of(state_stack@, comma_stack@, starts) =~= fr.update(n, f));
                                        lemma_resume_top(fr, s, f, r);
                                    }
                                },
                            }
                        },
                    }
                }
            },
            ParseState::Object(mut map, pending) => {
                if let Token::CloseObject = tok {
                    if comma_stack[comma_stack.len() - 1] {
                        assert(fr.last() == top);
                        return Err(JsonError::MissingComma);
                    }
                    comma_stack.pop();
                    proof {
                        starts = starts.drop_last();
                    }
                    let value = JVal::JObject(map);
                    proof {
                        lemma_object_model(map);
                        assert(fr.last() == top);
                    }
                    if state_stack.len() == 0 {
                        return Ok(value);
                    }
                    let ghost pre = state_stack@;
                    let ghost vm = value.model();
                    attach_value(&mut state_stack, value);
                    proof {
                        assert(comma_stack@[n - 1] == false);
                        assert(pre.last() == pre[n - 1]);
                        assert(frame_of(state_stack@.last(), false, starts[n - 1]) == attach(
                            frame_of(pre.last(), false, starts[n - 1]),
                            vm,
                        ));
                        assert forall|i: int| 0 <= i < n - 1 implies state_stack@[i] == st0[i] by {
                            assert(state_stack@.drop_last()[i] == pre.drop_last()[i]);
                        }
                        assert(pre[n - 1] == st0[n - 1]);
                        assert(fr[n - 1] == frame_of(st0[n - 1], false, ss0[n - 1]));
                        assert forall|i: int| 0 <= i < n - 1 implies state_wf(#[trigger] state_stack@[i]) by {
                            assert(state_wf(st0[i]));
                        }
                        assert(frames_of(state_stack@, comma_stack@, starts) =~= fr.drop_last().update(
                            n - 1,
                            attach(fr[n - 1], vm),
                        ));
                    }
                } else if let Token::Comma = tok {
                    match note_comma(map.len(), &mut comma_stack) {
                        Err(e) => {
                            assert(fr.last() == top);
                            return Err(e);
                        },
                        Ok(()) => {},
                    }
                    state_stack.push(ParseState::Object(map, pending));
                    proof {
                        let f = SFrame { comma: true, ..top };
                        assert(frames_of(state_stack@, comma_stack@, starts) =~= fr.update(n, f));
                        lemma_resume_top(fr, s, f, r);
                    }
                } else if let Token::TString(key) = tok {
                    proof {
                        lemma_lex_shrinks(r);
                        assert(fr.last() == top);
                    }
                    match iter.next() {
                        None => {
                            return Err(JsonError::UnexpectedEof);
                        },
                        Some(Err(e)) => {
                            return Err(e);
                        },
                        Some(Ok(Token::Colon)) => {},
                        Some(Ok(_)) => {
                            return Err(JsonError::MissingColon);
                        },
                    }
                    let ghost r1 = iter@;
                    proof {
                        lemma_lex_shrinks(r1);
                    }
                    let val = match iter.next() {
                        None => {
                            return Err(JsonError::UnexpectedEof);
                        },
                        Some(Err(e)) => {
                            return Err(e);
                        },
                        Some(Ok(t)) => t,
                    };
                    let ghost r2 = iter@;
                    match check_comma(map.len(), &mut comma_stack) {
                        Err(e) => {
                            return Err(e);
                        },
                        Ok(()) => {},
                    }
                    match token_opens(&val) {
                        Some(child_obj) => {
                            let ghost kv = key@;
                            state_stack.push(ParseState::Object(map, key));
                            state_stack.push(new_state(child_obj));
                            comma_stack.push(false);
                            proof {
                                let top_c = SFrame { key: kv, comma: false, ..top };
                                let child = SFrame {
                                    is_obj: child_obj,
                                    keys: seq![],
                                    vals: seq![],
                                    key: seq![],
                                    comma: false,
                                    start: r2.len(),
                                };
                                starts = starts.push(r2.len());
                                let fr2 = fr.update(n, top_c).push(child);
                                assert(frames_of(state_stack@, comma_stack@, starts) =~= fr2);
                                assert(fr2.drop_last() =~= fr.update(n, top_c));
                                assert(run_frame(child, r2) == parse_container(child_obj, r2));
                                match parse_container(child_obj, r2) {
                                    Ok((v, r3)) => {
                                        if r3.len() < r2.len() {
                                            lemma_resume_top(fr, s, attach(top_c, v), r3);
                                            assert(fr.update(n, top_c).update(n, attach(top_c, v)) =~= fr.update(n, attach(top_c, v)));
                                        }
                                    },
                                    Err(_) => {},
                                }
                            }
                        },
                        None => {
                            match to_atom(val) {
                                None => {
                                    return Err(JsonError::InvalidObjectStructure);
                                },
                                Some(v) => {
                                    let ghost vm = v.model();
                                    let ghost kv = key@;
                                    map.insert(key, v);
                                    state_stack.push(ParseState::Object(map, pending));
                                    proof {
                                        let (k2, v2) = obj_insert(top.keys, top.vals, kv, vm);
                                        let f = SFrame { keys: k2, vals: v2, comma: false, ..top };
                                        assert(frames_of(state_stack@, comma_stack@, starts) =~= fr.update(n, f));
                                        lemma_resume_top(fr, s, f, r2);
                                    }
                                },
                            }
                        },
                    }
                } else {
                    assert(fr.last() == top);
                    return Err(JsonError::InvalidObjectStructure);
                }
            },
        }
    }
}


proof fn lemma_elements_array(s: Seq<char>, items: Seq<Json>, comma: bool)
    ensures
        parse_elements(s, items, comma) matches Ok((v, _)) ==> v is Arr,
    decreases s.len(),
{
    if let Some((Ok(t), r)) = lex(s) {
        if r.len() < s.len() && t != Tok::CloseArray {
            if t == Tok::Comma {
                lemma_elements_array(r, items, true);
            } else if opens(t) {
                if let Ok((v, r2)) = parse_container(t == Tok::OpenObject, r) {
                    if r2.len() < r.len() {
                        lemma_elements_array(r2, items.push(v), false);
                    }
                }
            } else if let Some(v) = atom(t) {
                lemma_elements_array(r, items.push(v), false);
            }
        }
    }
}

proof fn lemma_members_object(s: Seq<char>, keys: Seq<Seq<char>>, vals: Seq<Json>, comma: bool)
    ensures
        parse_members(s, keys, vals, comma) matches Ok((v, _)) ==> v is Obj,
    decreases s.len(),
{
    if let Some((Ok(t), r)) = lex(s) {
        if r.len() < s.len() && t != Tok::CloseObject {
            if t == Tok::Comma {
                lemma_members_object(r, keys, vals, true);
            } else if let Tok::Str(k) = t {
                if let Some((Ok(c), r1)) = lex(r) {
                    if let Some((Ok(t2), r2)) = lex(r1) {
                        if r2.len() < s.len() {
                            if opens(t2) {
                                if let Ok((v, r3)) = parse_container(t2 == Tok::OpenObject, r2) {
                                    if r3.len() < r2.len() {
                                        let (k2, v2) = obj_insert(keys, vals, k, v);
                                        lemma_members_object(r3, k2, v2, false);
                                    }
                                }
                            } else if let Some(v) = atom(t2) {
                                let (k2, v2) = obj_insert(keys, vals, k, v);
                                lemma_members_object(r2, k2, v2, false);
                            }
                        }
                    }
                }
            }
        }
    }
}

/// Only an object or an array is a document: a document whose first token is
/// anything else is rejected as an invalid start, and an accepted document
/// opens with `{` or `[` and its value is an object or an array.
pub proof fn lemma_document_root(s: Seq<char>)
    ensures
        (lex(s) matches Some((Ok(t), _)) && !opens(t)) ==> parse_document(s) == Err::<Json, JsonError>(
            JsonError::InvalidStart,
        ),
        parse_document(s) is Ok ==> (lex(s) matches Some((Ok(t), _)) && opens(t)),
        parse_document(s) matches Ok(v) ==> (v is Obj || v is Arr),
{
    if let Some((Ok(t), r)) = lex(s) {
        lemma_elements_array(r, seq![], false);
        lemma_members_object(r, seq![], seq![], false);
    }
}

/// Reading the same bytes twice, each time through a fresh source, gives the
/// same tree or the same error.
pub proof fn lemma_reparse(a: Seq<u8>, b: Seq<u8>)
    requires
        a == b,
    ensures
        parse_document(chars_of(a)) == parse_document(chars_of(b)),
{
}

} // verus!
