use vstd::prelude::*;
use vstd::string::*;

verus! {

/// Errors of the board.
#[derive(Debug)]
pub enum E {
    DOM(String),
    Serde(String),
    NoCanvasContext,
    NoParent(String),
    RenderNotInited,
    NotGridForm,
    NotSupported,
    Other(String),
}

/// The text that describes an error.
pub open spec fn message_of(e: E) -> Seq<char> {
    match e {
        E::DOM(s) => "DOM error: "@ + s@,
        E::Serde(s) => "Serde parsing error: "@ + s@,
        E::NoCanvasContext => "Canvas context ins't setup"@,
        E::NoParent(s) => "Entity "@ + s@ + " doesn't have parent"@,
        E::RenderNotInited => "Render isn't inited"@,
        E::NotGridForm => "Form isn't belong to grid"@,
        E::NotSupported => "Static error message"@,
        E::Other(s) => s@,
    }
}

impl E {
    /// The message of the error, as it is shown to a user.
    pub fn message(&self) -> (res: String)
        ensures
            res@ == message_of(*self),
    {
        match self {
            E::DOM(s) => {
                let mut res = String::from_str("DOM error: ");
                res.append(s.as_str());
                res
            },
            E::Serde(s) => {
                let mut res = String::from_str("Serde parsing error: ");
                res.append(s.as_str());
                res
            },
            E::NoCanvasContext => String::from_str("Canvas context ins't setup"),
            E::NoParent(s) => {
                let mut res = String::from_str("Entity ");
                res.append(s.as_str());
                res.append(" doesn't have parent");
                res
            },
            E::RenderNotInited => String::from_str("Render isn't inited"),
            E::NotGridForm => String::from_str("Form isn't belong to grid"),
            E::NotSupported => String::from_str("Static error message"),
            E::Other(s) => s.clone(),
        }
    }
}

} // verus!
