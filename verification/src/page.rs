//! State of the explorer page and what its inputs do to it.
use vstd::prelude::*;
use vstd::string::*;
use crate::gui::DEFAULT_RPC_ADDR;
use crate::gui::DomainCard;
use crate::gui::IdentityRow;
use crate::gui::RelayStatus;
use crate::text::trim;
use crate::text::trimmed;

verus! {

/// What an exploration asks for.
#[derive(Clone, Copy, Debug, PartialEq, Eq, Structural)]
pub enum ExploreMode {
    /// A domain name.
    Name,
    /// An owner id.
    Owner,
}

/// Everything the page carries.
pub struct PageState {
    pub relay_addr: String,
    pub connected: Option<RelayStatus>,
    pub connect_error: String,
    pub query: String,
    pub mode: ExploreMode,
    pub exploring: bool,
    pub result: Option<Result<Vec<DomainCard>, String>>,
    pub identities: Vec<IdentityRow>,
    pub identities_error: String,
    pub active: Option<usize>,
}

/// An exploration to run.
pub struct Exploration {
    pub mode: ExploreMode,
    pub query: String,
    pub relay: String,
}

/// What the result area shows.
pub enum ResultArea<'a> {
    /// A search is running.
    Searching,
    /// Nothing was searched for yet.
    NoSearch,
    /// The search failed.
    Failed(&'a String),
    /// The search found nothing.
    Empty,
    /// The domains found.
    Cards(&'a Vec<DomainCard>),
}

impl Default for PageState {
    fn default() -> (page: PageState)
        ensures
            page.relay_addr@ == DEFAULT_RPC_ADDR@,
            page.connected is None,
            page.connect_error@ == Seq::<char>::empty(),
            page.query@ == Seq::<char>::empty(),
            page.mode == ExploreMode::Name,
            !page.exploring,
            page.result is None,
            page.identities@ == Seq::<IdentityRow>::empty(),
            page.identities_error@ == Seq::<char>::empty(),
            page.active is None,
    {
        PageState {
            relay_addr: String::from_str(DEFAULT_RPC_ADDR),
            connected: None,
            connect_error: String::new(),
            query: String::new(),
            mode: ExploreMode::Name,
            exploring: false,
            result: None,
            identities: Vec::new(),
            identities_error: String::new(),
            active: None,
        }
    }
}

impl PageState {
    /// Whether the keystore has been scanned at least once.
    pub fn identities_loaded(&self) -> (r: bool)
        ensures
            r == !(self.identities@.len() == 0 && self.identities_error@.len() == 0),
    {
        !(self.identities.len() == 0 && self.identities_error.as_str().is_empty())
    }

    /// Takes the outcome of a keystore scan.
    pub fn scanned(&mut self, outcome: Result<Vec<IdentityRow>, String>)
        ensures
            *final(self) == (match outcome {
                Ok(list) => PageState { identities: list, ..*old(self) },
                Err(text) => PageState { identities_error: text, ..*old(self) },
            }),
    {
        match outcome {
            Ok(list) => {
                self.identities = list;
            },
            Err(text) => {
                self.identities_error = text;
            },
        }
    }

    /// Starts a connection attempt: forgets the last outcome. The address to
    /// connect to.
    pub fn begin_connect(&mut self) -> (addr: String)
        ensures
            addr@ == old(self).relay_addr@,
            final(self).connect_error@ == Seq::<char>::empty(),
            *final(self) == (PageState {
                connected: None,
                connect_error: final(self).connect_error,
                ..*old(self)
            }),
    {
        self.connected = None;
        self.connect_error = String::new();
        self.relay_addr.clone()
    }

    /// Takes the outcome of a connection attempt.
    pub fn finish_connect(&mut self, outcome: Result<RelayStatus, String>)
        ensures
            match outcome {
                Ok(status) => {
                    &&& final(self).connect_error@ == Seq::<char>::empty()
                    &&& *final(self) == (PageState {
                        connected: Some(status),
                        connect_error: final(self).connect_error,
                        ..*old(self)
                    })
                },
                Err(text) => *final(self) == (PageState { connect_error: text, ..*old(self) }),
            },
    {
        match outcome {
            Ok(status) => {
                self.connected = Some(status);
                self.connect_error = String::new();
            },
            Err(text) => {
                self.connect_error = text;
            },
        }
    }

    /// Starts the exploration of a query, already without white space around
    /// it; none if it is empty.
    pub fn begin_query(&mut self, query: String) -> (e: Option<Exploration>)
        ensures
            if query@.len() == 0 {
                e is None && *final(self) == *old(self)
            } else {
                &&& e is Some
                &&& e->0.mode == old(self).mode
                &&& e->0.query@ == query@
                &&& e->0.relay@ == old(self).relay_addr@
                &&& *final(self) == (PageState { exploring: true, result: None, ..*old(self) })
            },
    {
        if query.as_str().is_empty() {
            return None;
        }
        self.exploring = true;
        self.result = None;
        Some(Exploration { mode: self.mode, query, relay: self.relay_addr.clone() })
    }

    /// Starts the exploration of the query field; none if it is empty.
    pub fn begin_explore(&mut self) -> (e: Option<Exploration>)
        ensures
            if trimmed(old(self).query@).len() == 0 {
                e is None && *final(self) == *old(self)
            } else {
                &&& e is Some
                &&& e->0.mode == old(self).mode
                &&& e->0.query@ == trimmed(old(self).query@)
                &&& e->0.relay@ == old(self).relay_addr@
                &&& *final(self) == (PageState { exploring: true, result: None, ..*old(self) })
            },
    {
        let query = trim(self.query.as_str());
        self.begin_query(query)
    }

    /// Takes the outcome of an exploration.
    pub fn finish_explore(&mut self, outcome: Result<Vec<DomainCard>, String>)
        ensures
            *final(self) == (PageState { exploring: false, result: Some(outcome), ..*old(self) }),
    {
        self.exploring = false;
        self.result = Some(outcome);
    }

    /// The active identity, if one of the list is.
    pub fn active_identity(&self) -> (id: Option<&IdentityRow>)
        ensures
            match id {
                Some(row) => self.active is Some && self.active->0 < self.identities@.len() && *row
                    == self.identities@[self.active->0 as int],
                None => self.active is None || self.active->0 >= self.identities@.len(),
            },
    {
        match self.active {
            Some(i) => {
                if i < self.identities.len() {
                    Some(&self.identities[i])
                } else {
                    None
                }
            },
            None => None,
        }
    }

    /// What the result area shows.
    pub fn result_area<'a>(&'a self) -> (area: ResultArea<'a>)
        ensures
            if self.exploring {
                area == ResultArea::<'a>::Searching
            } else {
                match self.result {
                    None => area == ResultArea::<'a>::NoSearch,
                    Some(Err(text)) => area matches ResultArea::Failed(t) && *t == text,
                    Some(Ok(cards)) => if cards@.len() == 0 {
                        area == ResultArea::<'a>::Empty
                    } else {
                        area matches ResultArea::Cards(c) && *c == cards
                    },
                }
            },
    {
        if self.exploring {
            return ResultArea::Searching;
        }
        match &self.result {
            None => ResultArea::NoSearch,
            Some(Err(text)) => ResultArea::Failed(text),
            Some(Ok(cards)) => {
                if cards.len() == 0 {
                    ResultArea::Empty
                } else {
                    ResultArea::Cards(cards)
                }
            },
        }
    }
}

/// Owner id shown for an identity, or a hint that it needs unlocking.
pub fn owner_display(id: &IdentityRow) -> (text: String)
    ensures
        text@ == (if id.owner_id@.len() == 0 {
            "(d\u{e9}verrouillage requis \u{2014} v2)"@
        } else {
            id.owner_id@
        }),
{
    if id.owner_id.as_str().is_empty() {
        String::from_str("(d\u{e9}verrouillage requis \u{2014} v2)")
    } else {
        id.owner_id.clone()
    }
}

} // verus!
