//! The poke tool: while a simulation plays, holding the left button charges
//! a kick, and letting it go kicks the object under the pointer.

use vstd::prelude::*;
use crate::modal::Button;
use crate::scalar::Scalar;
use crate::text::join;

verus! {

/// The poke tool.
#[derive(Debug)]
pub struct PokeTool {
    charge: Option<Scalar>,
}

/// Something that happened. `handled` says that it was used up before.
#[derive(Clone, Copy, PartialEq, Eq, Structural, Debug)]
pub enum PokeEvent {
    /// `over_ui` says that the pointer is over a panel.
    Press { button: Button, handled: bool, over_ui: bool },
    Release { button: Button },
}

/// What an event did.
#[derive(Clone, Copy, PartialEq, Eq, Structural, Debug)]
pub struct PokeReply {
    /// The event is used up now.
    pub used: bool,
    /// A kick, by the seconds that the button was held.
    pub kick: Option<Scalar>,
}

impl PokeTool {
    /// The seconds that the button has been held, while it is.
    pub closed spec fn held(&self) -> Option<Scalar> {
        self.charge
    }

    pub fn new() -> (r: PokeTool)
        ensures
            r.held() is None,
    {
        PokeTool { charge: None }
    }

    /// The seconds that the button has been held, while it is.
    pub fn charge(&self) -> (r: Option<Scalar>)
        ensures
            r == self.held(),
    {
        self.charge
    }

    /// Advances the charge to `longer`, which is what the seconds held come
    /// to with the last frame. Where nothing plays the kick is called off.
    pub fn update(&mut self, longer: Scalar, playing: bool)
        ensures
            final(self).held() == (if playing && old(self).held() is Some {
                Some(longer)
            } else {
                None
            }),
    {
        if !playing {
            self.charge = None;
        } else if self.charge.is_some() {
            self.charge = Some(longer);
        }
    }

    /// Handles an event: the left button charges and kicks. A press that
    /// charges is used up, so that it never selects anything.
    pub fn handle_event(&mut self, event: PokeEvent, playing: bool) -> (r: PokeReply)
        ensures
            !playing ==> final(self).held() is None && r == (PokeReply { used: false, kick: None }),
            playing ==> match event {
                PokeEvent::Press { button, handled, over_ui } => {
                    let starts = button is Left && !handled && !over_ui && old(self).held() is None;
                    &&& r == (PokeReply { used: starts, kick: None })
                    &&& final(self).held() == (if starts {
                        Some(Scalar { bits: 0 })
                    } else {
                        old(self).held()
                    })
                },
                PokeEvent::Release { button } => {
                    let kicks = button is Left && old(self).held() is Some;
                    &&& r == (PokeReply {
                        used: kicks,
                        kick: if kicks {
                            old(self).held()
                        } else {
                            None
                        },
                    })
                    &&& final(self).held() == (if kicks {
                        None
                    } else {
                        old(self).held()
                    })
                },
            },
    {
        if !playing {
            self.charge = None;
            return PokeReply { used: false, kick: None };
        }
        match event {
            PokeEvent::Press { button, handled, over_ui } => {
                let starts = button == Button::Left && !handled && !over_ui
                    && self.charge.is_none();
                if starts {
                    self.charge = Some(Scalar { bits: 0 });
                }
                PokeReply { used: starts, kick: None }
            },
            PokeEvent::Release { button } => {
                if button == Button::Left && self.charge.is_some() {
                    let kick = self.charge;
                    self.charge = None;
                    PokeReply { used: true, kick }
                } else {
                    PokeReply { used: false, kick: None }
                }
            },
        }
    }
}

/// What is said of a kick that landed, from its strength as it is shown.
pub fn poke_status(percent: &str) -> (r: String)
    ensures
        r@ == "poked at "@ + percent@ + "% power"@,
{
    let mut said = join("poked at ", percent);
    said.append("% power");
    said
}

} // verus!
