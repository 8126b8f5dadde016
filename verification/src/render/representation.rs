use vstd::prelude::*;

use crate::entity::{Signature, SignatureGetter};
use crate::error::E;
use crate::render::Render;

verus! {

/// An entity as it was given, or with the forms that draw it.
#[derive(Debug)]
pub enum Representation<T> {
    Origin(T),
    Render(Render<T>),
}

impl<T> Representation<T> {
    /// The entity, whichever way it is held.
    pub open spec fn entity(&self) -> T {
        match self {
            Representation::Origin(t) => *t,
            Representation::Render(r) => r.entity,
        }
    }

    pub fn origin(&self) -> (res: &T)
        ensures
            *res == self.entity(),
    {
        match self {
            Self::Origin(t) => t,
            Self::Render(r) => r.origin(),
        }
    }

    pub fn origin_mut(&mut self) -> (res: &mut T)
        ensures
            *res == old(self).entity(),
            final(self).entity() == *final(res),
            *old(self) is Origin <==> *final(self) is Origin,
            *old(self) is Render ==> final(self)->Render_0.view == old(self)->Render_0.view
                && final(self)->Render_0.hidden == old(self)->Render_0.hidden,
    {
        match self {
            Self::Origin(t) => t,
            Self::Render(r) => r.origin_mut(),
        }
    }

    pub fn render(&self) -> (res: Result<&Render<T>, E>)
        ensures
            match self {
                Representation::Render(r) => res == Ok::<&Render<T>, E>(r),
                Representation::Origin(_) => res == Err::<&Render<T>, E>(E::RenderNotInited),
            },
    {
        if let Self::Render(r) = self {
            Ok(r)
        } else {
            Err(E::RenderNotInited)
        }
    }
}

impl<T: SignatureGetter> Representation<T> {
    pub fn sig(&self) -> (res: &Signature)
        ensures
            *res == self.entity().signature(),
    {
        match self {
            Self::Origin(t) => t.sig(),
            Self::Render(r) => r.origin().sig(),
        }
    }
}

} // verus!
