use vstd::prelude::*;

verus! {

/// The character that a single byte of the document stands for.
pub open spec fn byte_char(b: u8) -> char {
    b as char
}

/// The characters that the bytes `b` stand for, one per byte.
pub open spec fn chars_of(b: Seq<u8>) -> Seq<char> {
    b.map_values(|x: u8| byte_char(x))
}

/// A pull-based character source with one character of lookahead.
pub struct JsonReader {
    data: Vec<u8>,
    pos: usize,
}

impl View for JsonReader {
    type V = Seq<char>;

    /// The characters not yet consumed.
    closed spec fn view(&self) -> Seq<char> {
        chars_of(self.data@.skip(self.pos as int))
    }
}

impl JsonReader {
    pub closed spec fn wf(&self) -> bool {
        self.pos <= self.data@.len()
    }

    /// A source over the bytes of a document, positioned at its start.
    pub fn new(data: Vec<u8>) -> (r: Self)
        ensures
            r.wf(),
            r@ == chars_of(data@),
    {
        let r = JsonReader { data, pos: 0 };
        proof {
            assert(r.data@.skip(0) =~= r.data@);
        }
        r
    }

    /// The next character, not consumed; `None` at the end of the input.
    pub fn peek(&self) -> (r: Option<char>)
        requires
            self.wf(),
        ensures
            r == (if self@.len() == 0 { None } else { Some(self@[0]) }),
    {
        if self.pos < self.data.len() {
            Some(self.data[self.pos] as char)
        } else {
            None
        }
    }

    /// Consumes and returns the next character; `None` at the end of the input.
    pub fn next(&mut self) -> (r: Option<char>)
        requires
            old(self).wf(),
        ensures
            final(self).wf(),
            old(self)@.len() == 0 ==> r.is_none() && final(self)@ == old(self)@,
            old(self)@.len() > 0 ==> r == Some(old(self)@[0]) && final(self)@ == old(self)@.drop_first(),
    {
        if self.pos < self.data.len() {
            let c = self.data[self.pos] as char;
            proof {
                assert(self.data@.skip(self.pos as int + 1) =~= self.data@.skip(self.pos as int).drop_first());
            }
            self.pos = self.pos + 1;
            Some(c)
        } else {
            None
        }
    }
}

} // verus!
