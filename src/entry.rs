//! Entries: named fields, auto-type settings, custom data and the
//! committed history, with their views, equality, copying and commits.

use vstd::prelude::*;
use crate::color::Color;
use crate::iconid::IconId;
use crate::keyed::{keyed_copy, keyed_equal, keyed_map, keyed_remove, keyed_set, find_key};
use crate::text::{opt_string_copy, opt_string_equal, opt_view, strings_copy, strings_equal, strings_view};
use crate::times::{Times, Timestamp};
use crate::value::{Structured, Value, ValueView};
use crate::history::{stamped, distinct_stamps, newest_first, by_stamp, fold_other, conflicts, lemma_newest_first_unique, HISTORY_CONFLICT_WARNING, lemma_fold_orderable};
use crate::ids::{fresh_uuid, uuid_text, uuid_to_string};
use crate::log::{MergeError, MergeLog};
use vstd::string::{StringExecFns, StringSliceAdditionalSpecFns};

verus! {

broadcast use vstd::std_specs::vec::group_vec_axioms, vstd::seq::group_seq_axioms;

/// A window association of an auto-type setting.
pub struct AutoTypeAssociation {
    pub window: Option<String>,
    pub sequence: Option<String>,
}

pub struct AutoTypeAssociationView {
    pub window: Option<Seq<char>>,
    pub sequence: Option<Seq<char>>,
}

impl View for AutoTypeAssociation {
    type V = AutoTypeAssociationView;

    open spec fn view(&self) -> AutoTypeAssociationView {
        AutoTypeAssociationView { window: opt_view(self.window), sequence: opt_view(self.sequence) }
    }
}

impl Structured for AutoTypeAssociation {
    fn same_as(&self, other: &AutoTypeAssociation) -> (r: bool) {
        opt_string_equal(&self.window, &other.window) && opt_string_equal(&self.sequence, &other.sequence)
    }

    fn duplicate(&self) -> (r: AutoTypeAssociation) {
        AutoTypeAssociation { window: opt_string_copy(&self.window), sequence: opt_string_copy(&self.sequence) }
    }
}

/// The auto-type setting of an entry.
pub struct AutoType {
    pub enabled: bool,
    pub sequence: Option<String>,
    pub associations: Vec<AutoTypeAssociation>,
}

pub struct AutoTypeView {
    pub enabled: bool,
    pub sequence: Option<Seq<char>>,
    pub associations: Seq<AutoTypeAssociationView>,
}

impl View for AutoType {
    type V = AutoTypeView;

    open spec fn view(&self) -> AutoTypeView {
        AutoTypeView {
            enabled: self.enabled,
            sequence: opt_view(self.sequence),
            associations: Seq::new(self.associations@.len(), |i: int| self.associations@[i]@),
        }
    }
}

impl Structured for AutoType {
    fn same_as(&self, other: &AutoType) -> (r: bool) {
        if self.enabled != other.enabled || !opt_string_equal(&self.sequence, &other.sequence) {
            return false;
        }
        if self.associations.len() != other.associations.len() {
            assert(self@.associations.len() != other@.associations.len());
            return false;
        }
        let mut i: usize = 0;
        while i < self.associations.len()
            invariant
                self.associations@.len() == other.associations@.len(),
                0 <= i <= self.associations@.len(),
                forall|j: int| 0 <= j < i ==> self.associations@[j]@ == other.associations@[j]@,
            decreases self.associations.len() - i,
        {
            if !self.associations[i].same_as(&other.associations[i]) {
                assert(self@.associations[i as int] != other@.associations[i as int]);
                return false;
            }
            i += 1;
        }
        assert(self@.associations =~= other@.associations);
        true
    }

    fn duplicate(&self) -> (r: AutoType) {
        let mut associations: Vec<AutoTypeAssociation> = Vec::new();
        let mut i: usize = 0;
        while i < self.associations.len()
            invariant
                0 <= i <= self.associations@.len(),
                associations@.len() == i,
                forall|j: int| 0 <= j < i ==> associations@[j]@ == self.associations@[j]@,
            decreases self.associations.len() - i,
        {
            associations.push(self.associations[i].duplicate());
            i += 1;
        }
        let r = AutoType { enabled: self.enabled, sequence: opt_string_copy(&self.sequence), associations };
        assert(r@.associations =~= self@.associations);
        r
    }
}

/// One item of custom data.
pub struct CustomDataItem {
    pub value: Option<Value>,
    pub last_modification_time: Option<Timestamp>,
}

pub struct CustomDataItemView {
    pub value: Option<ValueView>,
    pub last_modification_time: Option<Timestamp>,
}

impl View for CustomDataItem {
    type V = CustomDataItemView;

    open spec fn view(&self) -> CustomDataItemView {
        CustomDataItemView {
            value: match self.value {
                Some(v) => Some(v@),
                None => None,
            },
            last_modification_time: self.last_modification_time,
        }
    }
}

impl Structured for CustomDataItem {
    fn same_as(&self, other: &CustomDataItem) -> (r: bool) {
        if self.last_modification_time != other.last_modification_time {
            return false;
        }
        match &self.value {
            None => other.value.is_none(),
            Some(a) => match &other.value {
                None => false,
                Some(b) => a.same_as(b),
            },
        }
    }

    fn duplicate(&self) -> (r: CustomDataItem) {
        let value = match &self.value {
            None => None,
            Some(v) => Some(v.duplicate()),
        };
        CustomDataItem { value, last_modification_time: self.last_modification_time }
    }
}

/// A custom data item together with its key.
pub struct CustomDataItemDenormalized {
    pub key: String,
    pub custom_data_item: CustomDataItem,
}

/// Custom data of a node: items by key.
pub struct CustomData {
    pub items: Vec<(String, CustomDataItem)>,
}

impl View for CustomData {
    type V = Map<Seq<char>, CustomDataItemView>;

    open spec fn view(&self) -> Map<Seq<char>, CustomDataItemView> {
        keyed_map(self.items@)
    }
}

impl Structured for CustomData {
    fn same_as(&self, other: &CustomData) -> (r: bool) {
        keyed_equal(&self.items, &other.items)
    }

    fn duplicate(&self) -> (r: CustomData) {
        CustomData { items: keyed_copy(&self.items) }
    }
}

impl CustomData {
    pub fn new() -> (r: CustomData)
        ensures
            r@ == Map::<Seq<char>, CustomDataItemView>::empty(),
    {
        let r = CustomData { items: Vec::new() };
        assert(r@ =~= Map::<Seq<char>, CustomDataItemView>::empty());
        r
    }
}

/// A leaf of the tree: named fields and the entry's committed history.
pub struct Entry {
    pub uuid: u128,
    pub fields: Vec<(String, Value)>,
    pub autotype: Option<AutoType>,
    pub tags: Vec<String>,
    pub times: Times,
    pub custom_data: CustomData,
    pub icon_id: Option<IconId>,
    pub custom_icon_uuid: Option<u128>,
    pub foreground_color: Option<Color>,
    pub background_color: Option<Color>,
    pub override_url: Option<String>,
    pub quality_check: Option<bool>,
    pub history: Option<History>,
    /// The uuid of the group that holds this entry; not part of its content.
    pub parent: Option<u128>,
}

/// What an entry holds, as compared between entries. The parent is not part of it.
pub struct EntryView {
    pub uuid: u128,
    pub fields: Map<Seq<char>, ValueView>,
    pub autotype: Option<AutoTypeView>,
    pub tags: Seq<Seq<char>>,
    pub times: Times,
    pub custom_data: Map<Seq<char>, CustomDataItemView>,
    pub icon_id: Option<IconId>,
    pub custom_icon_uuid: Option<u128>,
    pub foreground_color: Option<Color>,
    pub background_color: Option<Color>,
    pub override_url: Option<Seq<char>>,
    pub quality_check: Option<bool>,
    pub history: Option<Seq<EntryView>>,
}

/// An entry's history: snapshots of its committed states, most recent first.
pub struct History {
    pub entries: Vec<Entry>,
}

/// What an entry holds; the snapshots of its history are seen the same way.
pub open spec fn entry_view(e: Entry) -> EntryView
    decreases e,
{
    EntryView {
        uuid: e.uuid,
        fields: keyed_map(e.fields@),
        autotype: match e.autotype {
            Some(a) => Some(a@),
            None => None,
        },
        tags: strings_view(e.tags@),
        times: e.times,
        custom_data: e.custom_data@,
        icon_id: e.icon_id,
        custom_icon_uuid: e.custom_icon_uuid,
        foreground_color: e.foreground_color,
        background_color: e.background_color,
        override_url: opt_view(e.override_url),
        quality_check: e.quality_check,
        history: match e.history {
            Some(h) => Some(
                Seq::new(
                    h.entries@.len(),
                    |i: int|
                        if 0 <= i < h.entries@.len() {
                            entry_view(h.entries@[i])
                        } else {
                            EntryView::arbitrary_view()
                        },
                ),
            ),
            None => None,
        },
    }
}

impl View for Entry {
    type V = EntryView;

    open spec fn view(&self) -> EntryView {
        entry_view(*self)
    }
}

impl View for History {
    type V = Seq<EntryView>;

    open spec fn view(&self) -> Seq<EntryView> {
        Seq::new(self.entries@.len(), |i: int| self.entries@[i]@)
    }
}

impl EntryView {
    pub open spec fn arbitrary_view() -> EntryView {
        EntryView {
            uuid: 0,
            fields: Map::empty(),
            autotype: None,
            tags: Seq::empty(),
            times: Times::empty_spec(),
            custom_data: Map::empty(),
            icon_id: None,
            custom_icon_uuid: None,
            foreground_color: None,
            background_color: None,
            override_url: None,
            quality_check: None,
            history: None,
        }
    }

    /// The entry's content with its last-modification time and its history
    /// set aside: what decides whether it changed since the last commit.
    pub open spec fn sanitized(self) -> EntryView {
        EntryView {
            times: Times { last_modification: Some(0), ..self.times },
            history: None,
            ..self
        }
    }

    /// The history, an absent one read as empty.
    pub open spec fn history_or_empty(self) -> Seq<EntryView> {
        match self.history {
            Some(h) => h,
            None => Seq::empty(),
        }
    }

    /// The text of the field named `key`.
    pub open spec fn field_text(self, key: Seq<char>) -> Option<Seq<char>> {
        if self.fields.dom().contains(key) {
            self.fields[key].text()
        } else {
            None
        }
    }
}

impl Entry {
    /// Whether two entries hold the same content (their parents aside).
    pub fn equals(&self, other: &Entry) -> (r: bool)
        ensures
            r == (self@ == other@),
        decreases self,
    {
        if self.uuid != other.uuid || self.times != other.times || self.icon_id != other.icon_id
            || self.custom_icon_uuid != other.custom_icon_uuid
            || self.foreground_color != other.foreground_color
            || self.background_color != other.background_color
            || self.quality_check != other.quality_check {
            return false;
        }
        if !keyed_equal(&self.fields, &other.fields) || !strings_equal(&self.tags, &other.tags)
            || !self.custom_data.same_as(&other.custom_data)
            || !opt_string_equal(&self.override_url, &other.override_url) {
            return false;
        }
        let same_autotype = match &self.autotype {
            None => other.autotype.is_none(),
            Some(a) => match &other.autotype {
                None => false,
                Some(b) => a.same_as(b),
            },
        };
        if !same_autotype {
            return false;
        }
        match &self.history {
            None => other.history.is_none(),
            Some(ha) => match &other.history {
                None => false,
                Some(hb) => {
                    if ha.entries.len() != hb.entries.len() {
                        assert(self@.history.unwrap().len() != other@.history.unwrap().len());
                        return false;
                    }
                    let mut i: usize = 0;
                    while i < ha.entries.len()
                        invariant
                            ha.entries@.len() == hb.entries@.len(),
                            self.history == Some(*ha),
                            other.history == Some(*hb),
                            0 <= i <= ha.entries@.len(),
                            forall|j: int| 0 <= j < i ==> ha.entries@[j]@ == hb.entries@[j]@,
                        decreases ha.entries.len() - i,
                    {
                        proof {
                            assert(decreases_to!(self => ha.entries@[i as int]));
                        }
                        if !ha.entries[i].equals(&hb.entries[i]) {
                            assert(self@.history.unwrap()[i as int] != other@.history.unwrap()[i as int]);
                            return false;
                        }
                        i += 1;
                    }
                    assert(self@.history.unwrap() =~= other@.history.unwrap());
                    true
                },
            },
        }
    }

    /// Whether two entries hold the same content apart from their histories.
    pub fn same_content(&self, other: &Entry) -> (r: bool)
        ensures
            r == ((EntryView { history: None, ..self@ }) == (EntryView { history: None, ..other@ })),
    {
        let mut a = self.duplicate();
        a.history = None;
        let mut b = other.duplicate();
        b.history = None;
        a.equals(&b)
    }

    /// An independent copy with the same content and no parent.
    pub fn duplicate(&self) -> (r: Entry)
        ensures
            r@ == self@,
            r.parent.is_none(),
        decreases self,
    {
        let history = match &self.history {
            None => None,
            Some(h) => {
                let mut entries: Vec<Entry> = Vec::new();
                let mut i: usize = 0;
                while i < h.entries.len()
                    invariant
                        self.history == Some(*h),
                        0 <= i <= h.entries@.len(),
                        entries@.len() == i,
                        forall|j: int| 0 <= j < i ==> entries@[j]@ == h.entries@[j]@,
                    decreases h.entries.len() - i,
                {
                    proof {
                        assert(decreases_to!(*self => self.history));
                        assert(decreases_to!(self.history => self.history->Some_0));
                        assert(decreases_to!(*h => h.entries));
                        assert(decreases_to!(h.entries => h.entries@));
                        assert(decreases_to!(h.entries@ => h.entries@[i as int]));
                        assert(decreases_to!(self => h.entries@[i as int]));
                    }
                    entries.push(h.entries[i].duplicate());
                    i += 1;
                }
                Some(History { entries })
            },
        };
        let autotype = match &self.autotype {
            None => None,
            Some(a) => Some(a.duplicate()),
        };
        let r = Entry {
            uuid: self.uuid,
            fields: keyed_copy(&self.fields),
            autotype,
            tags: strings_copy(&self.tags),
            times: self.times,
            custom_data: self.custom_data.duplicate(),
            icon_id: self.icon_id,
            custom_icon_uuid: self.custom_icon_uuid,
            foreground_color: self.foreground_color,
            background_color: self.background_color,
            override_url: opt_string_copy(&self.override_url),
            quality_check: self.quality_check,
            history,
            parent: None,
        };
        assert(r@.history == self@.history) by {
            if self.history.is_some() {
                assert(r@.history.unwrap() =~= self@.history.unwrap());
            }
        }
        r
    }
}

/// The warning logged when one side of an entry merge has no history.
pub open spec fn no_history_warning(uuid: u128) -> Seq<char> {
    "Entry "@ + uuid_text(uuid) + " had no history."@
}

fn no_history_message(uuid: u128) -> (r: String)
    ensures
        r@ == no_history_warning(uuid),
{
    proof {
        reveal_strlit("Entry ");
        reveal_strlit(" had no history.");
    }
    let s = String::from_str("Entry ");
    let s = s.concat(uuid_to_string(uuid).as_str());
    s.concat(" had no history.")
}

/// The entry after a commit at time `t`: its last-modification time is
/// `t`, and a snapshot of that state heads its history.
pub open spec fn committed(e: EntryView, t: Timestamp) -> EntryView {
    let now = EntryView { times: Times { last_modification: Some(t), ..e.times }, ..e };
    EntryView { history: Some(seq![EntryView { history: None, ..now }] + e.history_or_empty()), ..now }
}

/// Whether the entry differs from the head of its history, its
/// last-modification time and history aside. An entry without history, or
/// with an empty one, has uncommitted changes.
pub open spec fn has_uncommitted_changes_spec(e: EntryView) -> bool {
    e.history_or_empty().len() == 0 || e.sanitized() != e.history_or_empty()[0].sanitized()
}

/// The history of the incoming side of an entry merge: a snapshot of the
/// incoming entry ahead of its own history.
pub open spec fn incoming_lineage(incoming: EntryView) -> Seq<EntryView> {
    seq![EntryView { history: None, ..incoming }] + incoming.history_or_empty()
}

impl History {
    pub fn duplicate(&self) -> (r: History)
        ensures
            r@ == self@,
    {
        let mut entries: Vec<Entry> = Vec::new();
        let mut i: usize = 0;
        while i < self.entries.len()
            invariant
                0 <= i <= self.entries@.len(),
                entries@.len() == i,
                forall|j: int| 0 <= j < i ==> entries@[j]@ == self.entries@[j]@,
            decreases self.entries.len() - i,
        {
            entries.push(self.entries[i].duplicate());
            i += 1;
        }
        let r = History { entries };
        assert(r@ =~= self@);
        r
    }
}

impl Entry {
    /// A new entry: a fresh uuid, no fields, every timestamp now, the key icon.
    pub fn new() -> (r: Entry)
        ensures
            r.fields@.len() == 0,
            r.tags@.len() == 0,
            r.autotype.is_none(),
            r.custom_data.items@.len() == 0,
            exists|t: Timestamp| r.times == Times::all_at(t),
            r.icon_id == Some(IconId(IconId::KEY)),
            r.custom_icon_uuid.is_none(),
            r.foreground_color.is_none(),
            r.background_color.is_none(),
            r.override_url.is_none(),
            r.quality_check.is_none(),
            r.history.is_none(),
            r.parent.is_none(),
    {
        Entry {
            uuid: fresh_uuid(),
            fields: Vec::new(),
            autotype: None,
            tags: Vec::new(),
            times: Times::new(),
            custom_data: CustomData { items: Vec::new() },
            icon_id: Some(IconId(IconId::KEY)),
            custom_icon_uuid: None,
            foreground_color: None,
            background_color: None,
            override_url: None,
            quality_check: None,
            history: None,
            parent: None,
        }
    }

    pub fn get_uuid(&self) -> (r: u128)
        ensures
            r == self.uuid,
    {
        self.uuid
    }

    pub fn set_uuid(&mut self, uuid: u128)
        ensures
            final(self)@ == (EntryView { uuid, ..old(self)@ }),
            final(self).parent == old(self).parent,
    {
        self.uuid = uuid;
    }

    pub fn get_history(&self) -> (r: &Option<History>)
        ensures
            r == &self.history,
    {
        &self.history
    }

    /// Drops the whole history.
    pub fn purge_history(&mut self)
        ensures
            final(self)@ == (EntryView { history: None, ..old(self)@ }),
            final(self).parent == old(self).parent,
    {
        self.history = None;
    }

    /// The text of the field named `key`: a plain string, or protected bytes
    /// that are valid UTF-8; none for raw bytes or an absent field.
    pub fn get(&self, key: &str) -> (r: Option<String>)
        ensures
            r.is_some() == self@.field_text(key@).is_some(),
            r.is_some() ==> r.unwrap()@ == self@.field_text(key@).unwrap(),
    {
        let k = key.to_owned();
        match find_key(&self.fields, &k) {
            None => None,
            Some(i) => self.fields[i].1.text(),
        }
    }

    /// The bytes of the field named `key`, where it holds raw bytes.
    pub fn get_bytes(&self, key: &str) -> (r: Option<Vec<u8>>)
        ensures
            r.is_some() == (self@.fields.dom().contains(key@) && self@.fields[key@] is Bytes),
            r.is_some() ==> r.unwrap()@ == self@.fields[key@]->Bytes_0,
    {
        let k = key.to_owned();
        match find_key(&self.fields, &k) {
            None => None,
            Some(i) => match &self.fields[i].1 {
                Value::Bytes(b) => Some(crate::value::bytes_copy(b)),
                _ => None,
            },
        }
    }

    /// Sets (or, with `None`, removes) a plain-text field.
    fn set_unprotected_field_pair(&mut self, field_name: &str, field_value: Option<&str>)
        ensures
            final(self)@ == (EntryView {
                fields: match field_value {
                    Some(v) => old(self)@.fields.insert(field_name@, ValueView::Unprotected(v@)),
                    None => old(self)@.fields.remove(field_name@),
                },
                ..old(self)@
            }),
            final(self).parent == old(self).parent,
    {
        let name = field_name.to_owned();
        match field_value {
            Some(v) => keyed_set(&mut self.fields, name, Value::Unprotected(v.to_owned())),
            None => keyed_remove(&mut self.fields, &name),
        }
    }

    pub fn get_title(&self) -> (r: Option<String>)
        ensures
            r.is_some() == self@.field_text("Title"@).is_some(),
            r.is_some() ==> r.unwrap()@ == self@.field_text("Title"@).unwrap(),
    {
        self.get("Title")
    }

    pub fn set_title(&mut self, title: Option<&str>)
        ensures
            final(self)@ == (EntryView {
                fields: match title {
                    Some(v) => old(self)@.fields.insert("Title"@, ValueView::Unprotected(v@)),
                    None => old(self)@.fields.remove("Title"@),
                },
                ..old(self)@
            }),
            final(self).parent == old(self).parent,
    {
        self.set_unprotected_field_pair("Title", title);
    }

    pub fn get_notes(&self) -> (r: Option<String>)
        ensures
            r.is_some() == self@.field_text("Notes"@).is_some(),
            r.is_some() ==> r.unwrap()@ == self@.field_text("Notes"@).unwrap(),
    {
        self.get("Notes")
    }

    pub fn set_notes(&mut self, notes: Option<&str>)
        ensures
            final(self)@ == (EntryView {
                fields: match notes {
                    Some(v) => old(self)@.fields.insert("Notes"@, ValueView::Unprotected(v@)),
                    None => old(self)@.fields.remove("Notes"@),
                },
                ..old(self)@
            }),
            final(self).parent == old(self).parent,
    {
        self.set_unprotected_field_pair("Notes", notes);
    }

    pub fn get_username(&self) -> (r: Option<String>)
        ensures
            r.is_some() == self@.field_text("UserName"@).is_some(),
            r.is_some() ==> r.unwrap()@ == self@.field_text("UserName"@).unwrap(),
    {
        self.get("UserName")
    }

    pub fn set_username(&mut self, username: Option<&str>)
        ensures
            final(self)@ == (EntryView {
                fields: match username {
                    Some(v) => old(self)@.fields.insert("UserName"@, ValueView::Unprotected(v@)),
                    None => old(self)@.fields.remove("UserName"@),
                },
                ..old(self)@
            }),
            final(self).parent == old(self).parent,
    {
        self.set_unprotected_field_pair("UserName", username);
    }

    pub fn get_password(&self) -> (r: Option<String>)
        ensures
            r.is_some() == self@.field_text("Password"@).is_some(),
            r.is_some() ==> r.unwrap()@ == self@.field_text("Password"@).unwrap(),
    {
        self.get("Password")
    }

    /// Sets the password, kept in protected memory (or removes it with `None`).
    pub fn set_password(&mut self, password: Option<&str>)
        ensures
            final(self)@ == (EntryView {
                fields: match password {
                    Some(v) => old(self)@.fields.insert("Password"@, ValueView::Protected(v.spec_bytes())),
                    None => old(self)@.fields.remove("Password"@),
                },
                ..old(self)@
            }),
            final(self).parent == old(self).parent,
    {
        let name = "Password".to_owned();
        proof { reveal_strlit("Password"); }
        match password {
            Some(p) => keyed_set(&mut self.fields, name, Value::protected_str(p)),
            None => keyed_remove(&mut self.fields, &name),
        }
    }

    pub fn get_url(&self) -> (r: Option<String>)
        ensures
            r.is_some() == self@.field_text("URL"@).is_some(),
            r.is_some() ==> r.unwrap()@ == self@.field_text("URL"@).unwrap(),
    {
        self.get("URL")
    }

    pub fn set_url(&mut self, url: Option<&str>)
        ensures
            final(self)@ == (EntryView {
                fields: match url {
                    Some(v) => old(self)@.fields.insert("URL"@, ValueView::Unprotected(v@)),
                    None => old(self)@.fields.remove("URL"@),
                },
                ..old(self)@
            }),
            final(self).parent == old(self).parent,
    {
        self.set_unprotected_field_pair("URL", url);
    }

    /// The raw text of the one-time-password field.
    pub fn get_raw_otp_value(&self) -> (r: Option<String>)
        ensures
            r.is_some() == self@.field_text("otp"@).is_some(),
            r.is_some() ==> r.unwrap()@ == self@.field_text("otp"@).unwrap(),
    {
        self.get("otp")
    }

    pub fn get_autotype(&self) -> (r: Option<&AutoType>)
        ensures
            r.is_some() == self.autotype.is_some(),
            r.is_some() ==> *r.unwrap() == self.autotype.unwrap(),
    {
        match &self.autotype {
            Some(a) => Some(a),
            None => None,
        }
    }

    pub fn set_autotype(&mut self, autotype: Option<AutoType>)
        ensures
            *final(self) == (Entry { autotype, ..*old(self) }),
    {
        self.autotype = autotype;
    }

    pub fn get_tags(&self) -> (r: &Vec<String>)
        ensures
            r == &self.tags,
    {
        &self.tags
    }

    pub fn get_tags_mut(&mut self) -> (r: &mut Vec<String>)
        ensures
            *r == old(self).tags,
            *final(self) == (Entry { tags: *final(r), ..*old(self) }),
    {
        &mut self.tags
    }

    pub fn get_icon_id(&self) -> (r: Option<IconId>)
        ensures
            r == self.icon_id,
    {
        self.icon_id
    }

    pub fn set_icon_id(&mut self, icon_id: Option<IconId>)
        ensures
            *final(self) == (Entry { icon_id, ..*old(self) }),
    {
        self.icon_id = icon_id;
    }

    pub fn get_custom_icon_uuid(&self) -> (r: Option<u128>)
        ensures
            r == self.custom_icon_uuid,
    {
        self.custom_icon_uuid
    }

    pub fn get_times(&self) -> (r: &Times)
        ensures
            *r == self.times,
    {
        &self.times
    }

    pub fn get_times_mut(&mut self) -> (r: &mut Times)
        ensures
            *r == old(self).times,
            *final(self) == (Entry { times: *final(r), ..*old(self) }),
    {
        &mut self.times
    }

    pub fn get_parent(&self) -> (r: Option<u128>)
        ensures
            r == self.parent,
    {
        self.parent
    }

    pub fn set_parent(&mut self, parent: Option<u128>)
        ensures
            *final(self) == (Entry { parent, ..*old(self) }),
    {
        self.parent = parent;
    }

    /// Whether the entry changed since its last commit.
    fn has_uncommited_changes(&self) -> (r: bool)
        ensures
            r == has_uncommitted_changes_spec(self@),
    {
        match &self.history {
            None => true,
            Some(h) => {
                if h.entries.len() == 0 {
                    return true;
                }
                let mut current = self.duplicate();
                current.times.last_modification = Some(0);
                current.history = None;
                let mut last = h.entries[0].duplicate();
                last.times.last_modification = Some(0);
                last.history = None;
                assert(self@.history_or_empty()[0] == h.entries@[0]@);
                !current.equals(&last)
            },
        }
    }

    /// Commits the entry's current state: where it changed since the last
    /// commit, its last-modification time becomes now and a snapshot of the
    /// new state heads its history. Returns whether a snapshot was added; an
    /// absent history becomes an empty one either way.
    pub fn update_history(&mut self) -> (r: bool)
        ensures
            r == has_uncommitted_changes_spec(old(self)@),
            !r ==> final(self)@ == old(self)@,
            r ==> exists|t: Timestamp| final(self)@ == committed(old(self)@, t),
            final(self).parent == old(self).parent,
    {
        if self.history.is_none() {
            self.history = Some(History::new());
        }
        assert(has_uncommitted_changes_spec(self@) == has_uncommitted_changes_spec(old(self)@));
        if !self.has_uncommited_changes() {
            return false;
        }
        let ghost before = self@;
        let now = Times::now();
        self.times.set_last_modification(Some(now));
        let ghost mid = self@;
        let mut snapshot = self.duplicate();
        snapshot.history = None;
        snapshot.parent = self.parent;
        let ghost snap = snapshot@;
        assert(snap == EntryView { history: None, ..mid });
        assert(mid.history_or_empty() == old(self)@.history_or_empty());
        match &mut self.history {
            Some(h) => {
                assert(h@ == mid.history_or_empty());
                h.add_entry(snapshot);
                assert(h@ == seq![snap] + mid.history_or_empty());
            },
            None => {},
        }
        assert(self@.history.unwrap() =~= committed(old(self)@, now).history.unwrap());
        assert(self@ == committed(old(self)@, now));
        true
    }

    /// Sets a plain-text field and commits the change.
    pub fn set_field_and_commit(&mut self, field_name: &str, field_value: &str)
        ensures
            ({
                let edited = EntryView {
                    fields: old(self)@.fields.insert(field_name@, ValueView::Unprotected(field_value@)),
                    ..old(self)@
                };
                &&& has_uncommitted_changes_spec(edited) ==> exists|t: Timestamp| final(self)@ == #[trigger] committed(edited, t)
                &&& !has_uncommitted_changes_spec(edited) ==> final(self)@ == edited
            }),
            final(self).parent == old(self).parent,
    {
        self.set_unprotected_field_pair(field_name, Some(field_value));
        self.update_history();
    }

    /// The top-level content of `existing` with, as its history, the union by
    /// last-modification time of its history and of `incoming`'s history,
    /// ahead of which stands a snapshot of `incoming` where `with_incoming`.
    /// A side without history counts as an empty one, with a warning.
    fn union(existing: &Entry, incoming: &Entry, with_incoming: bool) -> (r: Result<(Entry, MergeLog), MergeError>)
        ensures
            ({
                let dst = existing@.history_or_empty();
                let src = source_side(incoming@, with_incoming);
                &&& stamped(dst) && stamped(src) && distinct_stamps(dst) ==> r.is_ok()
                &&& stamped(dst) && stamped(src) && !distinct_stamps(dst) ==> r == Err::<(Entry, MergeLog), MergeError>(MergeError::DuplicateHistoryTimestamp)
                &&& !(stamped(dst) && stamped(src)) ==> r.is_err()
                &&& r.is_ok() ==> {
                    let (m, log) = r.unwrap();
                    let pre = (if incoming.history.is_none() { seq![no_history_warning(existing.uuid)] } else { Seq::empty() })
                        + (if existing.history.is_none() { seq![no_history_warning(existing.uuid)] } else { Seq::empty() });
                    &&& m@ == (EntryView { history: m@.history, ..existing@ })
                    &&& m@.history.is_some()
                    &&& newest_first(m@.history.unwrap())
                    &&& by_stamp(m@.history.unwrap()) == fold_other(by_stamp(dst), src)
                    &&& m.parent.is_none()
                    &&& log@.events.len() == 0
                    &&& log@.warnings.len() == pre.len() + conflicts(by_stamp(dst), src)
                    &&& log@.warnings.subrange(0, pre.len() as int) == pre
                    &&& forall|i: int| pre.len() <= i < log@.warnings.len() ==> log@.warnings[i] == HISTORY_CONFLICT_WARNING@
                }
            }),
            r.is_ok() == union_spec(existing@, incoming@, source_side(incoming@, with_incoming)).is_some(),
            r.is_ok() ==> (r.unwrap().0@, r.unwrap().1@.warnings) == union_spec(existing@, incoming@, source_side(incoming@, with_incoming)).unwrap(),
    {
        let mut log = MergeLog::new();
        let mut source_history = match &incoming.history {
            Some(h) => h.duplicate(),
            None => {
                log.add_warning(no_history_message(existing.uuid));
                History::new()
            },
        };
        let mut destination_history = match &existing.history {
            Some(h) => h.duplicate(),
            None => {
                log.add_warning(no_history_message(existing.uuid));
                History::new()
            },
        };
        assert(destination_history@ =~= existing@.history_or_empty());
        if with_incoming {
            source_history.add_entry(incoming.duplicate());
            assert(source_history@ =~= incoming_lineage(incoming@));
        } else {
            assert(source_history@ =~= incoming@.history_or_empty());
        }
        let history_log = match destination_history.merge_with(&source_history) {
            Err(e) => {
                return Err(e);
            },
            Ok(l) => l,
        };
        let mut response = existing.duplicate();
        response.history = Some(destination_history);
        let ghost pre = log@.warnings;
        let all = log.merge_with(&history_log);
        assert(all@.warnings.subrange(0, pre.len() as int) =~= pre);
        assert(response@.history.unwrap() =~= destination_history@);
        proof {
            let dst = existing@.history_or_empty();
            let src = source_side(incoming@, with_incoming);
            let h = response@.history.unwrap();
            let c = merged_history(dst, src);
            lemma_newest_first_unique(h, c);
            let pre2 = (if incoming.history.is_none() { seq![no_history_warning(existing.uuid)] } else { Seq::empty() })
                + (if existing.history.is_none() { seq![no_history_warning(existing.uuid)] } else { Seq::empty() });
            let want = pre2 + Seq::new(conflicts(by_stamp(dst), src), |i: int| HISTORY_CONFLICT_WARNING@);
            assert(pre =~= pre2);
            assert forall|i: int| 0 <= i < all@.warnings.len() implies all@.warnings[i] == want[i] by {
                if i < pre.len() {
                    assert(all@.warnings[i] == all@.warnings.subrange(0, pre.len() as int)[i]);
                }
            }
            assert(all@.warnings =~= want);
        }
        Ok((response, all))
    }

    /// Reconciles two versions of one entry. `existing` is the version whose
    /// top-level content wins; `incoming` survives in the merged history,
    /// which is the union by last-modification time of the history of
    /// `existing` and of `incoming`'s lineage (a snapshot of it ahead of its
    /// own history). A side without history counts as an empty one, with a
    /// warning.
    pub fn merge(existing: &Entry, incoming: &Entry) -> (r: Result<(Entry, MergeLog), MergeError>)
        ensures
            ({
                let dst = existing@.history_or_empty();
                let src = incoming_lineage(incoming@);
                &&& stamped(dst) && stamped(src) && distinct_stamps(dst) ==> r.is_ok()
                &&& stamped(dst) && stamped(src) && !distinct_stamps(dst) ==> r == Err::<(Entry, MergeLog), MergeError>(MergeError::DuplicateHistoryTimestamp)
                &&& !(stamped(dst) && stamped(src)) ==> r.is_err()
                &&& r.is_ok() ==> {
                    let (m, log) = r.unwrap();
                    let pre = (if incoming.history.is_none() { seq![no_history_warning(existing.uuid)] } else { Seq::empty() })
                        + (if existing.history.is_none() { seq![no_history_warning(existing.uuid)] } else { Seq::empty() });
                    &&& m@ == (EntryView { history: m@.history, ..existing@ })
                    &&& m@.history.is_some()
                    &&& newest_first(m@.history.unwrap())
                    &&& by_stamp(m@.history.unwrap()) == fold_other(by_stamp(dst), src)
                    &&& m.parent.is_none()
                    &&& log@.events.len() == 0
                    &&& log@.warnings.len() == pre.len() + conflicts(by_stamp(dst), src)
                    &&& log@.warnings.subrange(0, pre.len() as int) == pre
                    &&& forall|i: int| pre.len() <= i < log@.warnings.len() ==> log@.warnings[i] == HISTORY_CONFLICT_WARNING@
                }
            }),
            r.is_ok() == entry_merge_spec(existing@, incoming@).is_some(),
            r.is_ok() ==> (r.unwrap().0@, r.unwrap().1@.warnings) == entry_merge_spec(existing@, incoming@).unwrap(),
    {
        Entry::union(existing, incoming, true)
    }

    /// Merges the histories of two versions of one entry that hold the same
    /// content apart from their histories: the content of `existing` with the
    /// union by last-modification time of both histories.
    pub fn merge_histories(existing: &Entry, incoming: &Entry) -> (r: Result<(Entry, MergeLog), MergeError>)
        ensures
            r.is_ok() == history_merge_spec(existing@, incoming@).is_some(),
            r.is_ok() ==> (r.unwrap().0@, r.unwrap().1@.warnings) == history_merge_spec(existing@, incoming@).unwrap(),
            r.is_ok() ==> r.unwrap().1@.events.len() == 0,
    {
        Entry::union(existing, incoming, false)
    }
}

/// The merged history of an entry merge: newest first, keyed by time as
/// folding `src` into `dst` keys it (there is exactly one such history).
pub open spec fn merged_history(dst: Seq<EntryView>, src: Seq<EntryView>) -> Seq<EntryView> {
    choose|h: Seq<EntryView>| newest_first(h) && by_stamp(h) == fold_other(by_stamp(dst), src)
}

/// Where the inputs allow it, the merged history is newest first and keys
/// the snapshots as the fold does.
pub proof fn lemma_merged_history(dst: Seq<EntryView>, src: Seq<EntryView>)
    requires
        stamped(dst),
        distinct_stamps(dst),
        stamped(src),
    ensures
        newest_first(merged_history(dst, src)),
        by_stamp(merged_history(dst, src)) == fold_other(by_stamp(dst), src),
{
    let h = lemma_fold_orderable(dst, src);
    assert(newest_first(h) && by_stamp(h) == fold_other(by_stamp(dst), src));
}

/// What merging `incoming` into `existing` gives: the entry and the
/// warnings; nothing where it fails.
pub open spec fn entry_merge_spec(existing: EntryView, incoming: EntryView) -> Option<(EntryView, Seq<Seq<char>>)> {
    union_spec(existing, incoming, incoming_lineage(incoming))
}

/// What merging the histories of two versions gives (see `Entry::merge_histories`).
pub open spec fn history_merge_spec(existing: EntryView, incoming: EntryView) -> Option<(EntryView, Seq<Seq<char>>)> {
    union_spec(existing, incoming, incoming.history_or_empty())
}

/// The history that `incoming` brings to a merge: its lineage, or its history alone.
pub open spec fn source_side(incoming: EntryView, with_incoming: bool) -> Seq<EntryView> {
    if with_incoming {
        incoming_lineage(incoming)
    } else {
        incoming.history_or_empty()
    }
}

/// The content of `existing` with the union of its history and `src`, and
/// the warnings; nothing where it fails.
pub open spec fn union_spec(existing: EntryView, incoming: EntryView, src: Seq<EntryView>) -> Option<(EntryView, Seq<Seq<char>>)> {
    let dst = existing.history_or_empty();
    if stamped(dst) && stamped(src) && distinct_stamps(dst) {
        let pre = (if incoming.history.is_none() { seq![no_history_warning(existing.uuid)] } else { Seq::empty() })
            + (if existing.history.is_none() { seq![no_history_warning(existing.uuid)] } else { Seq::empty() });
        Some((
            EntryView { history: Some(merged_history(dst, src)), ..existing },
            pre + Seq::new(conflicts(by_stamp(dst), src), |i: int| HISTORY_CONFLICT_WARNING@),
        ))
    } else {
        None
    }
}

impl Default for Entry {
    fn default() -> (r: Entry)
        ensures
            r.fields@.len() == 0,
            r.tags@.len() == 0,
            r.autotype.is_none(),
            r.custom_data.items@.len() == 0,
            exists|t: Timestamp| r.times == Times::all_at(t),
            r.icon_id == Some(IconId(IconId::KEY)),
            r.custom_icon_uuid.is_none(),
            r.foreground_color.is_none(),
            r.background_color.is_none(),
            r.override_url.is_none(),
            r.quality_check.is_none(),
            r.history.is_none(),
            r.parent.is_none(),
    {
        Entry::new()
    }
}

} // verus!
