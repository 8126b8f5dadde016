use vstd::prelude::*;
use vstd::string::*;

pub mod comosition;
pub mod component;
pub mod connection;
pub mod dummy;
pub mod port;

pub use comosition::Composition;
pub use component::Component;
pub use connection::{
    Connection, GetIncludedComponent, IsComponentIncluded, IsInputPort, IsPortIncluded, Joint,
};
pub use port::{Port, PortType, Ports};

use crate::text::{decimal, prefix, truncated, usize_to_string};

verus! {

/// Entities that carry a signature.
pub trait SignatureGetter {
    /// The signature of the entity.
    spec fn signature(&self) -> Signature;

    fn sig(&self) -> (res: &Signature)
        ensures
            *res == self.signature(),
    ;
}

/// An id that gives back an entity when the entity has that id.
pub trait SignatureEqual {
    /// The id that is compared.
    spec fn compared_id(&self) -> usize;

    fn get_if_equal<'b, T: SignatureGetter>(&self, entity: &'b T) -> (res: Option<&'b T>)
        ensures
            res == (if entity.signature().id == self.compared_id() {
                Some(entity)
            } else {
                None
            }),
    ;
}

impl SignatureEqual for &usize {
    open spec fn compared_id(&self) -> usize {
        **self
    }

    fn get_if_equal<'b, T: SignatureGetter>(&self, entity: &'b T) -> (res: Option<&'b T>) {
        if entity.sig().id == **self {
            Some(entity)
        } else {
            None
        }
    }
}

#[derive(Debug)]
pub struct Signature {
    pub id: usize,
    pub class_name: String,
    pub short_name: String,
}

impl Clone for Signature {
    fn clone(&self) -> (res: Self)
        ensures
            res == *self,
    {
        Signature {
            id: self.id,
            class_name: self.class_name.clone(),
            short_name: self.short_name.clone(),
        }
    }
}

/// The text that stands for a signature: its short name, else its class name, else its id,
/// where a name that reads `unknown` does not count.
pub open spec fn display_text(s: Signature) -> Seq<char> {
    if s.short_name@ != "unknown"@ {
        s.short_name@
    } else if s.class_name@ != "unknown"@ {
        s.class_name@
    } else {
        decimal(s.id as nat)
    }
}

/// The label of a signature: its text cut to `len` characters, marked with `...` when its
/// UTF-8 encoding, as `str::len` counts it, is longer than `len` bytes; or the id alone.
pub open spec fn label_text(s: Signature, as_short_name: bool, len: usize) -> Seq<char> {
    if as_short_name {
        let t = display_text(s);
        prefix(t, len as int) + (if vstd::utf8::encode_utf8(t).len() as usize > len {
            "..."@
        } else {
            ""@
        })
    } else {
        decimal(s.id as nat)
    }
}

/// Whether two texts are equal, character by character.
pub fn text_eq(a: &str, b: &str) -> (res: bool)
    ensures
        res == (a@ == b@),
{
    let n = a.unicode_len();
    if n != b.unicode_len() {
        return false;
    }
    let mut i: usize = 0;
    while i < n
        invariant
            n == a@.len(),
            n == b@.len(),
            0 <= i <= n,
            forall|j: int| 0 <= j < i ==> a@[j] == b@[j],
        decreases n - i,
    {
        if a.get_char(i) != b.get_char(i) {
            return false;
        }
        i = i + 1;
    }
    assert(a@ =~= b@);
    true
}

impl Default for Signature {
    fn default() -> (res: Self)
        ensures
            res.id == 0,
            res.class_name@ == "fake"@,
            res.short_name@ == "fake"@,
    {
        Self { id: 0, class_name: String::from_str("fake"), short_name: String::from_str("fake") }
    }
}

impl Signature {
    /// The text that stands for the signature.
    pub fn to_string(&self) -> (res: String)
        ensures
            res@ == display_text(*self),
    {
        let unknown = "unknown";
        proof {
            reveal_strlit("unknown");
        }
        if !text_eq(self.short_name.as_str(), unknown) {
            self.short_name.clone()
        } else if !text_eq(self.class_name.as_str(), unknown) {
            self.class_name.clone()
        } else {
            usize_to_string(self.id)
        }
    }

    pub fn as_label(&self, as_short_name: bool, len: usize) -> (res: String)
        ensures
            res@ == label_text(*self, as_short_name, len),
    {
        if as_short_name {
            let label = self.to_string();
            let mut res = truncated(label.as_str(), len);
            if label.as_str().len() > len {
                res.append("...");
            } else {
                assert(res@ =~= res@ + ""@) by {
                    reveal_strlit("");
                }
            }
            res
        } else {
            usize_to_string(self.id)
        }
    }
}

/// The class names and short names found among entities, each once.
#[derive(Debug)]
pub struct EntityProps {
    pub class_name: Vec<String>,
    pub short_name: Vec<String>,
}

/// The texts of a list of strings.
pub open spec fn texts(v: Seq<String>) -> Seq<Seq<char>> {
    v.map_values(|s: String| s@)
}

/// The texts with every repeat of an earlier text left out.
pub open spec fn unique(s: Seq<Seq<char>>) -> Seq<Seq<char>>
    decreases s.len(),
{
    if s.len() == 0 {
        seq![]
    } else {
        let u = unique(s.drop_last());
        if u.contains(s.last()) {
            u
        } else {
            u.push(s.last())
        }
    }
}

/// Whether the text is in the list.
pub fn contains_string(v: &Vec<String>, s: &String) -> (res: bool)
    ensures
        res == texts(v@).contains(s@),
{
    let mut i: usize = 0;
    while i < v.len()
        invariant
            0 <= i <= v@.len(),
            forall|j: int| 0 <= j < i ==> texts(v@)[j] != s@,
        decreases v@.len() - i,
    {
        if v[i] == *s {
            assert(texts(v@)[i as int] == s@);
            return true;
        }
        i = i + 1;
    }
    false
}

/// Appends the text unless it is in the list already.
pub fn push_unique(v: &mut Vec<String>, s: &String)
    ensures
        texts(final(v)@) == (if texts(old(v)@).contains(s@) {
            texts(old(v)@)
        } else {
            texts(old(v)@).push(s@)
        }),
{
    if !contains_string(v, s) {
        v.push(s.clone());
        assert(texts(v@) =~= texts(old(v)@).push(s@));
    }
}

/// The texts of the list, each once, in the order they first occur.
pub fn unique_strings(v: &Vec<String>) -> (res: Vec<String>)
    ensures
        texts(res@) == unique(texts(v@)),
{
    let mut res: Vec<String> = Vec::new();
    let mut i: usize = 0;
    assert(texts(res@) =~= unique(texts(v@).subrange(0, 0)));
    while i < v.len()
        invariant
            0 <= i <= v@.len(),
            texts(res@) == unique(texts(v@).subrange(0, i as int)),
        decreases v@.len() - i,
    {
        assert(texts(v@).subrange(0, i + 1).drop_last() =~= texts(v@).subrange(0, i as int));
        push_unique(&mut res, &v[i]);
        i = i + 1;
    }
    assert(texts(v@).subrange(0, v@.len() as int) =~= texts(v@));
    res
}

impl Default for EntityProps {
    fn default() -> (res: Self)
        ensures
            res.class_name@.len() == 0,
            res.short_name@.len() == 0,
    {
        EntityProps { class_name: Vec::new(), short_name: Vec::new() }
    }
}

impl EntityProps {
    /// Adds the names of `props` after these.
    pub fn merge(&mut self, props: EntityProps)
        ensures
            texts(final(self).class_name@) == texts(old(self).class_name@) + texts(
                props.class_name@,
            ),
            texts(final(self).short_name@) == texts(old(self).short_name@) + texts(
                props.short_name@,
            ),
    {
        let mut props = props;
        let ghost c = props.class_name@;
        let ghost s = props.short_name@;
        self.class_name.append(&mut props.class_name);
        self.short_name.append(&mut props.short_name);
        assert(texts(self.class_name@) =~= texts(old(self).class_name@) + texts(c));
        assert(texts(self.short_name@) =~= texts(old(self).short_name@) + texts(s));
    }

    /// The names, each once, in the order they first occur.
    pub fn dedup(&self) -> (res: EntityProps)
        ensures
            texts(res.class_name@) == unique(texts(self.class_name@)),
            texts(res.short_name@) == unique(texts(self.short_name@)),
    {
        EntityProps {
            class_name: unique_strings(&self.class_name),
            short_name: unique_strings(&self.short_name),
        }
    }
}

} // verus!
