//! The desired state of the whole system: how many slots each holder is granted
//! on each instance.
use vstd::prelude::*;
use vstd::string::StringExecFns;

use crate::order::{
    lemma_pair_irreflexive, lemma_pair_total, lemma_pair_transitive, pair_before, same_key, Dup, Key,
    Order,
};
use crate::ordmap::{lemma_rising_distinct, lists, rising, OrdMap};
use crate::sums::{lemma_slot_empty, lemma_slot_insert, lemma_slot_remove, slot_sum};
use crate::tenant::{TenantId, TenantName};
use crate::text::{decimal, decimal_text, IntoText};

verus! {

/// A tenant and the proxy through which it holds slots.
pub type HolderName = (TenantName, Seq<char>);

/// An instance and a tenant on it.
pub type SlotName = (Seq<char>, TenantName);

#[derive(Debug, PartialEq, Eq, PartialOrd, Ord, Hash)]
pub struct InstanceId {
    name: String,
}

#[derive(Debug, PartialEq, Eq, PartialOrd, Ord, Hash)]
pub struct ProxyId {
    name: String,
}

#[derive(Debug, PartialEq, Eq, PartialOrd, Ord, Hash)]
pub struct Holder {
    tenant: TenantId,
    proxy: ProxyId,
}

impl View for InstanceId {
    type V = Seq<char>;

    closed spec fn view(&self) -> Seq<char> {
        self.name@
    }
}

impl View for ProxyId {
    type V = Seq<char>;

    closed spec fn view(&self) -> Seq<char> {
        self.name@
    }
}

impl View for Holder {
    type V = HolderName;

    closed spec fn view(&self) -> HolderName {
        (self.tenant@, self.proxy@)
    }
}

impl InstanceId {
    pub fn new<T: IntoText>(name: T) -> (id: Self)
        ensures
            id@ == name.text(),
    {
        InstanceId { name: name.into_text() }
    }

    pub fn as_str(&self) -> (name: &str)
        ensures
            name@ == self@,
    {
        self.name.as_str()
    }

    /// The instance's name.
    pub fn to_string(&self) -> (name: String)
        ensures
            name@ == self@,
    {
        self.name.clone()
    }
}

impl ProxyId {
    pub fn new<T: IntoText>(name: T) -> (id: Self)
        ensures
            id@ == name.text(),
    {
        ProxyId { name: name.into_text() }
    }

    pub fn as_str(&self) -> (name: &str)
        ensures
            name@ == self@,
    {
        self.name.as_str()
    }

    /// The proxy's name.
    pub fn to_string(&self) -> (name: String)
        ensures
            name@ == self@,
    {
        self.name.clone()
    }
}

impl Holder {
    pub fn new(tenant: TenantId, proxy: ProxyId) -> (holder: Self)
        ensures
            holder@ == (tenant@, proxy@),
    {
        Holder { tenant, proxy }
    }

    pub fn tenant(&self) -> (tenant: &TenantId)
        ensures
            tenant@ == self@.0,
    {
        &self.tenant
    }

    pub fn proxy(&self) -> (proxy: &ProxyId)
        ensures
            proxy@ == self@.1,
    {
        &self.proxy
    }
}

impl Clone for InstanceId {
    fn clone(&self) -> (copy: Self)
        ensures
            copy@ == self@,
    {
        InstanceId { name: self.name.clone() }
    }
}

impl Clone for ProxyId {
    fn clone(&self) -> (copy: Self)
        ensures
            copy@ == self@,
    {
        ProxyId { name: self.name.clone() }
    }
}

impl Clone for Holder {
    fn clone(&self) -> (copy: Self)
        ensures
            copy@ == self@,
    {
        Holder { tenant: self.tenant.clone(), proxy: self.proxy.clone() }
    }
}

impl Dup for InstanceId {
    fn dup(&self) -> (copy: Self) {
        self.clone()
    }
}

impl Dup for ProxyId {
    fn dup(&self) -> (copy: Self) {
        self.clone()
    }
}

impl Dup for Holder {
    fn dup(&self) -> (copy: Self) {
        self.clone()
    }
}

impl Key for InstanceId {
    open spec fn before(a: Seq<char>, b: Seq<char>) -> bool {
        <String as Key>::before(a, b)
    }

    proof fn irreflexive(a: Seq<char>) {
        <String as Key>::irreflexive(a);
    }

    proof fn transitive(a: Seq<char>, b: Seq<char>, c: Seq<char>) {
        <String as Key>::transitive(a, b, c);
    }

    proof fn total(a: Seq<char>, b: Seq<char>) {
        <String as Key>::total(a, b);
    }

    fn compare(&self, other: &Self) -> (order: Order) {
        self.name.compare(&other.name)
    }
}

impl Key for ProxyId {
    open spec fn before(a: Seq<char>, b: Seq<char>) -> bool {
        <String as Key>::before(a, b)
    }

    proof fn irreflexive(a: Seq<char>) {
        <String as Key>::irreflexive(a);
    }

    proof fn transitive(a: Seq<char>, b: Seq<char>, c: Seq<char>) {
        <String as Key>::transitive(a, b, c);
    }

    proof fn total(a: Seq<char>, b: Seq<char>) {
        <String as Key>::total(a, b);
    }

    fn compare(&self, other: &Self) -> (order: Order) {
        self.name.compare(&other.name)
    }
}

impl Key for Holder {
    open spec fn before(a: HolderName, b: HolderName) -> bool {
        pair_before::<TenantId, ProxyId>(a, b)
    }

    proof fn irreflexive(a: HolderName) {
        lemma_pair_irreflexive::<TenantId, ProxyId>(a);
    }

    proof fn transitive(a: HolderName, b: HolderName, c: HolderName) {
        lemma_pair_transitive::<TenantId, ProxyId>(a, b, c);
    }

    proof fn total(a: HolderName, b: HolderName) {
        lemma_pair_total::<TenantId, ProxyId>(a, b);
    }

    fn compare(&self, other: &Self) -> (order: Order) {
        match self.tenant.compare(&other.tenant) {
            Order::Same => self.proxy.compare(&other.proxy),
            order => order,
        }
    }
}

/// A tenant on an instance.
#[derive(Debug, PartialEq, Eq, PartialOrd, Ord, Hash)]
pub struct Slot {
    pub instance: InstanceId,
    pub tenant: TenantId,
}

impl View for Slot {
    type V = SlotName;

    open spec fn view(&self) -> SlotName {
        (self.instance@, self.tenant@)
    }
}

impl Dup for Slot {
    fn dup(&self) -> (copy: Self) {
        Slot { instance: self.instance.clone(), tenant: self.tenant.clone() }
    }
}

impl Key for Slot {
    open spec fn before(a: SlotName, b: SlotName) -> bool {
        pair_before::<InstanceId, TenantId>(a, b)
    }

    proof fn irreflexive(a: SlotName) {
        lemma_pair_irreflexive::<InstanceId, TenantId>(a);
    }

    proof fn transitive(a: SlotName, b: SlotName, c: SlotName) {
        lemma_pair_transitive::<InstanceId, TenantId>(a, b, c);
    }

    proof fn total(a: SlotName, b: SlotName) {
        lemma_pair_total::<InstanceId, TenantId>(a, b);
    }

    fn compare(&self, other: &Self) -> (order: Order) {
        match self.instance.compare(&other.instance) {
            Order::Same => self.tenant.compare(&other.tenant),
            order => order,
        }
    }
}

/// An instance's desired state: its total budget, and the slots that each
/// holder is granted out of it. No holder stands there with no slot.
#[verifier::ext_equal]
pub struct DesiredView {
    pub budget: u32,
    pub granted: Map<HolderName, u32>,
}

impl DesiredView {
    /// All the slots granted together.
    pub open spec fn total(self) -> nat {
        slot_sum(self.granted)
    }

    /// The slots that `holder` is granted.
    pub open spec fn slots(self, holder: HolderName) -> u32 {
        if self.granted.contains_key(holder) {
            self.granted[holder]
        } else {
            0
        }
    }

    /// The desired state with `slots` granted to `holder`.
    pub open spec fn with_grant(self, holder: HolderName, slots: u32) -> DesiredView {
        DesiredView {
            budget: self.budget,
            granted: if slots == 0 {
                self.granted.remove(holder)
            } else {
                self.granted.insert(holder, slots)
            },
        }
    }

    /// Whether the slots granted stay within the total budget.
    pub open spec fn fits(self) -> bool {
        self.total() <= self.budget
    }
}

/// One instance's desired state: the total budget it is held to, and the slots
/// each holder is granted out of it.
///
/// A holder left out is granted nothing, so an entry carrying this replaces
/// what the instance held rather than adding to it.
#[derive(Debug, PartialEq, Eq)]
pub struct Desired {
    budget: u32,
    granted: OrdMap<Holder, u32>,
}

impl View for Desired {
    type V = DesiredView;

    closed spec fn view(&self) -> DesiredView {
        DesiredView { budget: self.budget, granted: self.granted@ }
    }
}

impl Desired {
    /// The grants are finitely many and none of them is empty.
    #[verifier::type_invariant]
    pub closed spec fn wf(self) -> bool {
        &&& self.granted@.dom().finite()
        &&& forall|h: HolderName| #[trigger] self.granted@.contains_key(h) ==> self.granted@[h] > 0
    }

    /// What is known of a well-formed desired state.
    pub proof fn lemma_wf(self)
        requires
            self.wf(),
        ensures
            self@.granted.dom().finite(),
            forall|h: HolderName| #[trigger]
                self@.granted.contains_key(h) ==> self@.granted[h] > 0,
    {
    }

    pub fn new(budget: u32) -> (desired: Self)
        ensures
            desired@ == (DesiredView { budget, granted: Map::empty() }),
    {
        Desired { budget, granted: OrdMap::new() }
    }

    /// Grants `slots` to `holder`, in place of what it was granted before.
    pub fn grant(self, holder: Holder, slots: u32) -> (desired: Self)
        ensures
            desired@ == self@.with_grant(holder@, slots),
            desired@.total() == self@.total() - self@.slots(holder@) + slots,
    {
        proof {
            use_type_invariant(&self);
            lemma_slot_insert(self.granted@, holder@, slots);
            lemma_slot_remove(self.granted@, holder@);
        }
        let Desired { budget, mut granted } = self;
        if slots == 0 {
            granted.remove(&holder);
        } else {
            granted.insert(holder, slots);
        }
        Desired { budget, granted }
    }

    pub fn budget(&self) -> (budget: u32)
        ensures
            budget == self@.budget,
    {
        self.budget
    }

    pub fn granted(&self, holder: &Holder) -> (slots: u32)
        ensures
            slots == self@.slots(holder@),
    {
        match self.granted.get(holder) {
            Some(slots) => *slots,
            None => 0,
        }
    }

    /// All the slots granted together, at most 2^64 - 1.
    pub fn granted_total(&self) -> (total: u64)
        ensures
            total == (if self@.total() > u64::MAX {
                u64::MAX as nat
            } else {
                self@.total()
            }),
    {
        let n: usize = self.granted.len();
        let ghost keys = self.granted.keys();
        let ghost mut seen = Map::<HolderName, u32>::empty();
        let mut total: u64 = 0;
        let mut i: usize = 0;
        proof {
            lemma_slot_empty::<HolderName>();
        }
        while i < n
            invariant
                n == keys.len(),
                i <= n,
                keys == self.granted.keys(),
                lists::<Holder, u32>(keys, self.granted@),
                seen.dom().finite(),
                forall|h: HolderName| #[trigger]
                    seen.contains_key(h) <==> (exists|j: int| 0 <= j < i && keys[j] == h),
                forall|h: HolderName| #[trigger]
                    seen.contains_key(h) ==> seen[h] == self.granted@[h],
                total == (if slot_sum(seen) > u64::MAX {
                    u64::MAX as nat
                } else {
                    slot_sum(seen)
                }),
            decreases n - i,
        {
            let slots: u32 = *self.granted.value_at(i);
            proof {
                let h = keys[i as int];
                assert(!seen.contains_key(h));
                lemma_slot_insert(seen, h, slots);
                seen = seen.insert(h, slots);
            }
            total = total.saturating_add(slots as u64);
            i += 1;
        }
        proof {
            assert(seen =~= self.granted@) by {
                assert forall|h: HolderName| self.granted@.contains_key(h) implies #[trigger] seen.contains_key(
                    h,
                ) by {
                    let j = choose|j: int| 0 <= j < keys.len() && keys[j] == h;
                    assert(0 <= j < i && keys[j] == h);
                }
            }
        }
        total
    }

    /// The holders and what each is granted, in the order of the holders.
    pub fn holders(&self) -> (holders: Vec<(&Holder, u32)>)
        ensures
            holder_list(holders@, self@.granted),
    {
        let mut holders: Vec<(&Holder, u32)> = Vec::new();
        let n: usize = self.granted.len();
        let mut i: usize = 0;
        while i < n
            invariant
                n == self.granted.keys().len(),
                i <= n,
                lists::<Holder, u32>(self.granted.keys(), self.granted@),
                holders@.len() == i,
                forall|j: int|
                    0 <= j < i ==> (#[trigger] holders@[j]).0@ == self.granted.keys()[j]
                        && holders@[j].1 == self.granted@[self.granted.keys()[j]],
            decreases n - i,
        {
            holders.push((self.granted.key_at(i), *self.granted.value_at(i)));
            i += 1;
        }
        proof {
            assert(holder_keys(holders@) =~= self.granted.keys());
        }
        holders
    }
}

/// The names of the holders in a list.
pub open spec fn holder_keys(list: Seq<(&Holder, u32)>) -> Seq<HolderName> {
    Seq::new(list.len(), |i: int| list[i].0@)
}

/// A list that gives exactly the grants of `granted`, in the order of the
/// holders.
pub open spec fn holder_list(list: Seq<(&Holder, u32)>, granted: Map<HolderName, u32>) -> bool {
    &&& lists::<Holder, u32>(holder_keys(list), granted)
    &&& forall|i: int| 0 <= i < list.len() ==> (#[trigger] list[i]).1 == granted[list[i].0@]
}

impl Dup for Desired {
    fn dup(&self) -> (copy: Self) {
        proof {
            use_type_invariant(self);
        }
        Desired { budget: self.budget, granted: self.granted.dup() }
    }
}

impl Clone for Desired {
    fn clone(&self) -> (copy: Self)
        ensures
            copy@ == self@,
    {
        self.dup()
    }
}

impl Default for Desired {
    fn default() -> (desired: Self)
        ensures
            desired@ == (DesiredView { budget: 0, granted: Map::empty() }),
    {
        Desired::new(0)
    }
}

/// The desired state of the instances that one write names.
#[derive(Debug, PartialEq, Eq)]
pub struct Entry {
    instances: OrdMap<InstanceId, Desired>,
}

impl View for Entry {
    type V = Map<Seq<char>, DesiredView>;

    closed spec fn view(&self) -> Map<Seq<char>, DesiredView> {
        self.instances@
    }
}

/// The names of the instances in a list.
pub open spec fn instance_keys(list: Seq<(&InstanceId, &Desired)>) -> Seq<Seq<char>> {
    Seq::new(list.len(), |i: int| list[i].0@)
}

impl Entry {
    pub fn new() -> (entry: Self)
        ensures
            entry@ == Map::<Seq<char>, DesiredView>::empty(),
    {
        Entry { instances: OrdMap::new() }
    }

    /// Writes the desired state of one instance into the entry.
    pub fn instance(self, instance: InstanceId, desired: Desired) -> (entry: Self)
        ensures
            entry@ == self@.insert(instance@, desired@),
    {
        let Entry { mut instances } = self;
        instances.insert(instance, desired);
        Entry { instances }
    }

    /// The instances and their desired states, in the order of the instances.
    pub fn iter(&self) -> (list: Vec<(&InstanceId, &Desired)>)
        ensures
            lists::<InstanceId, DesiredView>(instance_keys(list@), self@),
            forall|i: int| 0 <= i < list@.len() ==> (#[trigger] list@[i]).1@ == self@[list@[i].0@],
    {
        let mut list: Vec<(&InstanceId, &Desired)> = Vec::new();
        let n: usize = self.instances.len();
        let mut i: usize = 0;
        while i < n
            invariant
                n == self.instances.keys().len(),
                i <= n,
                lists::<InstanceId, DesiredView>(self.instances.keys(), self.instances@),
                list@.len() == i,
                forall|j: int|
                    0 <= j < i ==> (#[trigger] list@[j]).0@ == self.instances.keys()[j]
                        && list@[j].1@ == self.instances@[self.instances.keys()[j]],
            decreases n - i,
        {
            list.push((self.instances.key_at(i), self.instances.value_at(i)));
            i += 1;
        }
        proof {
            assert(instance_keys(list@) =~= self.instances.keys());
        }
        list
    }
}

impl Default for Entry {
    fn default() -> (entry: Self)
        ensures
            entry@ == Map::<Seq<char>, DesiredView>::empty(),
    {
        Entry::new()
    }
}

impl Clone for Entry {
    fn clone(&self) -> (copy: Self)
        ensures
            copy@ == self@,
    {
        Entry { instances: self.instances.dup() }
    }
}

#[derive(Debug, PartialEq, Eq)]
pub enum PreconditionError {
    OverBudget { instance: InstanceId, granted: u64, budget: u32 },
}

/// What an entry is rejected for: an instance, the slots it would hold and its
/// total budget.
#[verifier::ext_equal]
pub struct Rejection {
    pub instance: Seq<char>,
    pub granted: u64,
    pub budget: u32,
}

impl View for PreconditionError {
    type V = Rejection;

    open spec fn view(&self) -> Rejection {
        match *self {
            PreconditionError::OverBudget { instance, granted, budget } => Rejection {
                instance: instance@,
                granted,
                budget,
            },
        }
    }
}

impl Rejection {
    /// The rejection in words.
    pub open spec fn text(self) -> Seq<char> {
        "instance `"@ + self.instance + "` would hold "@ + decimal(self.granted as nat)
            + " slots against a total budget of "@ + decimal(self.budget as nat)
    }
}

impl PreconditionError {
    /// The error in words.
    pub fn to_string(&self) -> (text: String)
        ensures
            text@ == self@.text(),
    {
        match self {
            PreconditionError::OverBudget { instance, granted, budget } => {
                let mut text = "instance `".to_owned();
                text.append(instance.as_str());
                text.append("` would hold ");
                text.append(decimal_text(*granted).as_str());
                text.append(" slots against a total budget of ");
                text.append(decimal_text(*budget as u64).as_str());
                text
            },
        }
    }
}

impl Clone for PreconditionError {
    fn clone(&self) -> (copy: Self)
        ensures
            copy@ == self@,
    {
        match self {
            PreconditionError::OverBudget { instance, granted, budget } => {
                PreconditionError::OverBudget {
                    instance: instance.clone(),
                    granted: *granted,
                    budget: *budget,
                }
            },
        }
    }
}

/// Whether every instance that an entry names stays within its total budget.
pub open spec fn entry_fits(entry: Map<Seq<char>, DesiredView>) -> bool {
    forall|i: Seq<char>| #[trigger] entry.contains_key(i) ==> entry[i].fits()
}

/// Whether an entry is rejected for that: for the first instance that it leaves
/// over its total budget.
pub open spec fn rejected_for(entry: Map<Seq<char>, DesiredView>, rejection: Rejection) -> bool {
    let instance = rejection.instance;
    &&& entry.contains_key(instance)
    &&& !entry[instance].fits()
    &&& rejection.granted == (if entry[instance].total() > u64::MAX {
        u64::MAX as nat
    } else {
        entry[instance].total()
    })
    &&& rejection.budget == entry[instance].budget
    &&& forall|other: Seq<char>| #[trigger]
        entry.contains_key(other) && InstanceId::before(other, instance) ==> entry[other].fits()
}

/// Whether a table answers an entry so: it takes it, or rejects it for that.
pub open spec fn answered_with(
    entry: Map<Seq<char>, DesiredView>,
    rejection: Option<Rejection>,
) -> bool {
    match rejection {
        None => entry_fits(entry),
        Some(rejection) => rejected_for(entry, rejection),
    }
}

/// What an entry was rejected for, if it was.
pub open spec fn rejection_in(result: Result<(), PreconditionError>) -> Option<Rejection> {
    match result {
        Ok(()) => None,
        Err(error) => Some(error@),
    }
}

/// Whether every holder that stands in a table is granted a slot there, and on
/// each instance there are finitely many.
pub open spec fn no_empty_grants(table: Map<Seq<char>, DesiredView>) -> bool {
    forall|i: Seq<char>| #[trigger]
        table.contains_key(i) ==> {
            &&& table[i].granted.dom().finite()
            &&& forall|h: HolderName| #[trigger]
                table[i].granted.contains_key(h) ==> table[i].granted[h] > 0
        }
}

/// The desired state of every instance that was ever written.
pub type TableView = Map<Seq<char>, DesiredView>;

/// The total budget of an instance: none, where it was never written.
pub open spec fn table_budget(table: TableView, instance: Seq<char>) -> u32 {
    if table.contains_key(instance) {
        table[instance].budget
    } else {
        0
    }
}

/// What a holder is granted on an instance.
pub open spec fn table_slots(table: TableView, instance: Seq<char>, holder: HolderName) -> u32 {
    if table.contains_key(instance) {
        table[instance].slots(holder)
    } else {
        0
    }
}

/// All the slots granted on an instance.
pub open spec fn table_total(table: TableView, instance: Seq<char>) -> nat {
    if table.contains_key(instance) {
        table[instance].total()
    } else {
        0
    }
}

/// The grants of one proxy, by instance and tenant.
pub open spec fn proxy_grants(table: TableView, proxy: Seq<char>) -> Map<SlotName, u32> {
    Map::new(
        |s: SlotName| table.contains_key(s.0) && table[s.0].granted.contains_key((s.1, proxy)),
        |s: SlotName| table[s.0].granted[(s.1, proxy)],
    )
}

/// The desired state of the whole system: instance × tenant × proxy → slots.
///
/// Every write goes through [`AllocationTable::apply`], which holds each
/// instance to "the slots granted never exceed the total budget". An entry that
/// would break it for any instance is rejected whole, so a budget that shrinks
/// has to arrive together with the grants that fit it.
#[derive(Debug, PartialEq, Eq)]
pub struct AllocationTable {
    instances: OrdMap<InstanceId, Desired>,
}

impl View for AllocationTable {
    type V = TableView;

    closed spec fn view(&self) -> TableView {
        self.instances@
    }
}

impl AllocationTable {
    /// No instance holds more slots than its total budget, and no holder stands
    /// there with no slot.
    #[verifier::type_invariant]
    pub closed spec fn wf(self) -> bool {
        entry_fits(self.instances@) && no_empty_grants(self.instances@)
    }

    /// What is known of every table: no instance holds more slots than its
    /// total budget, and no holder stands there with no slot.
    pub proof fn lemma_wf(self)
        requires
            self.wf(),
        ensures
            entry_fits(self@),
            no_empty_grants(self@),
    {
    }

    pub fn new() -> (table: Self)
        ensures
            table@ == Map::<Seq<char>, DesiredView>::empty(),
    {
        AllocationTable { instances: OrdMap::new() }
    }

    /// Writes an entry: every instance that it names gets the desired state
    /// that it gives. An entry that would leave any instance over its total
    /// budget is rejected and changes nothing; the error names the first such
    /// instance.
    pub fn apply(&mut self, entry: &Entry) -> (result: Result<(), PreconditionError>)
        ensures
            entry_fits(final(self)@),
            result is Ok <==> entry_fits(entry@),
            result is Ok ==> final(self)@ == old(self)@.union_prefer_right(entry@),
            result is Err ==> final(self)@ == old(self)@,
            answered_with(entry@, rejection_in(result)),
    {
        proof {
            use_type_invariant(&*self);
        }
        let list = entry.iter();
        let n: usize = list.len();
        let ghost keys = instance_keys(list@);
        let mut i: usize = 0;
        while i < n
            invariant
                n == list@.len(),
                i <= n,
                keys == instance_keys(list@),
                lists::<InstanceId, DesiredView>(keys, entry@),
                forall|j: int| 0 <= j < n ==> (#[trigger] list@[j]).1@ == entry@[list@[j].0@],
                forall|j: int| 0 <= j < i ==> entry@[#[trigger] keys[j]].fits(),
                forall|j: int|
                    0 <= j < i ==> {
                        &&& entry@[#[trigger] keys[j]].granted.dom().finite()
                        &&& forall|h: HolderName| #[trigger]
                            entry@[keys[j]].granted.contains_key(h)
                                ==> entry@[keys[j]].granted[h] > 0
                    },
                entry_fits(self@),
                no_empty_grants(self@),
                self@ == old(self)@,
            decreases n - i,
        {
            let (instance, desired) = &list[i];
            assert(keys[i as int] == instance@);
            proof {
                use_type_invariant(*desired);
                desired.lemma_wf();
            }
            if desired.granted_total() > desired.budget() as u64 {
                proof {
                    assert(entry@.contains_key(keys[i as int]));
                    assert forall|other: Seq<char>| #[trigger]
                        entry@.contains_key(other) && InstanceId::before(
                            other,
                            instance@,
                        ) implies entry@[other].fits() by {
                        let j = choose|j: int| 0 <= j < keys.len() && keys[j] == other;
                        if j > i {
                            assert(InstanceId::before(keys[i as int], keys[j]));
                            InstanceId::transitive(other, keys[i as int], other);
                        }
                        InstanceId::irreflexive(other);
                    }
                }
                return Err(
                    PreconditionError::OverBudget {
                        instance: (*instance).clone(),
                        granted: desired.granted_total(),
                        budget: desired.budget(),
                    },
                );
            }
            i += 1;
        }
        proof {
            assert forall|k: Seq<char>| #[trigger] entry@.contains_key(k) implies entry@[k].fits() by {
                let j = choose|j: int| 0 <= j < keys.len() && keys[j] == k;
                assert(entry@[keys[j]].fits());
            }
            assert(no_empty_grants(entry@)) by {
                assert forall|k: Seq<char>| #[trigger] entry@.contains_key(k) implies {
                    &&& entry@[k].granted.dom().finite()
                    &&& forall|h: HolderName| #[trigger]
                        entry@[k].granted.contains_key(h) ==> entry@[k].granted[h] > 0
                } by {
                    let j = choose|j: int| 0 <= j < keys.len() && keys[j] == k;
                    assert(entry@[keys[j]].granted.dom().finite());
                }
            }
        }
        let mut instances: OrdMap<InstanceId, Desired> = OrdMap::new();
        let ghost before = self@;
        std::mem::swap(&mut self.instances, &mut instances);
        let mut i: usize = 0;
        while i < n
            invariant
                n == list@.len(),
                i <= n,
                keys == instance_keys(list@),
                lists::<InstanceId, DesiredView>(keys, entry@),
                forall|j: int| 0 <= j < n ==> (#[trigger] list@[j]).1@ == entry@[list@[j].0@],
                forall|k: Seq<char>| #[trigger]
                    instances@.contains_key(k) <==> before.contains_key(k) || (exists|j: int|
                        0 <= j < i && keys[j] == k),
                forall|k: Seq<char>| #[trigger]
                    instances@.contains_key(k) ==> instances@[k] == (if exists|j: int|
                        0 <= j < i && keys[j] == k {
                        entry@[k]
                    } else {
                        before[k]
                    }),
            decreases n - i,
        {
            let (instance, desired) = &list[i];
            assert(keys[i as int] == instance@);
            let ghost was = instances@;
            instances.insert((*instance).clone(), (*desired).clone());
            proof {
                assert(instances@ == was.insert(keys[i as int], entry@[keys[i as int]]));
            }
            i += 1;
        }
        proof {
            let after = before.union_prefer_right(entry@);
            assert forall|k: Seq<char>| #[trigger] entry@.contains_key(k) == (exists|j: int|
                0 <= j < i && keys[j] == k) by {
                if entry@.contains_key(k) {
                    let j = choose|j: int| 0 <= j < keys.len() && keys[j] == k;
                    assert(0 <= j < i && keys[j] == k);
                }
            }
            assert(instances@ =~= after) by {
                assert forall|k: Seq<char>| instances@.contains_key(k) == after.contains_key(k) by {
                    assert(entry@.contains_key(k) == (exists|j: int| 0 <= j < i && keys[j] == k));
                }
                assert forall|k: Seq<char>| instances@.contains_key(k) implies instances@[k]
                    == after[k] by {
                    assert(entry@.contains_key(k) == (exists|j: int| 0 <= j < i && keys[j] == k));
                }
            }
            assert forall|k: Seq<char>| #[trigger] after.contains_key(k) implies after[k].fits() by {
                if entry@.contains_key(k) {
                } else {
                    assert(before.contains_key(k));
                }
            }
            assert(no_empty_grants(after)) by {
                assert forall|k: Seq<char>| #[trigger] after.contains_key(k) implies {
                    &&& after[k].granted.dom().finite()
                    &&& forall|h: HolderName| #[trigger]
                        after[k].granted.contains_key(h) ==> after[k].granted[h] > 0
                } by {
                    if entry@.contains_key(k) {
                    } else {
                        assert(before.contains_key(k));
                    }
                }
            }
        }
        self.instances = instances;
        Ok(())
    }

    pub fn budget(&self, instance: &InstanceId) -> (budget: u32)
        ensures
            budget == table_budget(self@, instance@),
    {
        match self.instances.get(instance) {
            Some(desired) => desired.budget(),
            None => 0,
        }
    }

    pub fn granted(&self, instance: &InstanceId, holder: &Holder) -> (slots: u32)
        ensures
            slots == table_slots(self@, instance@, holder@),
    {
        match self.instances.get(instance) {
            Some(desired) => desired.granted(holder),
            None => 0,
        }
    }

    pub fn granted_total(&self, instance: &InstanceId) -> (total: u32)
        ensures
            total == table_total(self@, instance@),
            total <= table_budget(self@, instance@),
    {
        proof {
            use_type_invariant(self);
        }
        match self.instances.get(instance) {
            Some(desired) => desired.granted_total() as u32,
            None => 0,
        }
    }

    /// The slots of an instance's total budget that nobody is granted.
    pub fn headroom(&self, instance: &InstanceId) -> (slots: u32)
        ensures
            slots == table_budget(self@, instance@) - table_total(self@, instance@),
    {
        self.budget(instance) - self.granted_total(instance)
    }

    /// The instances that were ever written, in order.
    pub fn instances(&self) -> (list: Vec<&InstanceId>)
        ensures
            lists::<InstanceId, DesiredView>(Seq::new(list@.len(), |i: int| list@[i]@), self@),
    {
        let mut list: Vec<&InstanceId> = Vec::new();
        let n: usize = self.instances.len();
        let mut i: usize = 0;
        while i < n
            invariant
                n == self.instances.keys().len(),
                i <= n,
                list@.len() == i,
                forall|j: int| 0 <= j < i ==> (#[trigger] list@[j])@ == self.instances.keys()[j],
            decreases n - i,
        {
            list.push(self.instances.key_at(i));
            i += 1;
        }
        proof {
            assert(Seq::new(list@.len(), |i: int| list@[i]@) =~= self.instances.keys());
        }
        list
    }

    /// The holders on an instance and what each is granted, in the order of the
    /// holders.
    pub fn holders(&self, instance: &InstanceId) -> (holders: Vec<(&Holder, u32)>)
        ensures
            holder_list(
                holders@,
                if self@.contains_key(instance@) {
                    self@[instance@].granted
                } else {
                    Map::empty()
                },
            ),
    {
        match self.instances.get(instance) {
            Some(desired) => desired.holders(),
            None => {
                let none: Vec<(&Holder, u32)> = Vec::new();
                proof {
                    assert(holder_keys(none@) =~= Seq::empty());
                    assert(Seq::<HolderName>::empty().to_set() =~= Set::empty());
                    assert(Map::<HolderName, u32>::empty().dom() =~= Set::empty());
                }
                none
            },
        }
    }
}

/// The instance and tenant of each grant in a list.
pub open spec fn grant_keys(list: Seq<(&InstanceId, &TenantId, u32)>) -> Seq<SlotName> {
    Seq::new(list.len(), |i: int| (list[i].0@, list[i].1@))
}

/// A list that gives exactly the grants of `grants`, in the order of their
/// instances and tenants.
pub open spec fn grant_list(
    list: Seq<(&InstanceId, &TenantId, u32)>,
    grants: Map<SlotName, u32>,
) -> bool {
    &&& lists::<Slot, u32>(grant_keys(list), grants)
    &&& forall|i: int|
        0 <= i < list.len() ==> (#[trigger] list[i]).2 == grants[(list[i].0@, list[i].1@)]
}

impl AllocationTable {
    /// The grants of one proxy, in the order of their instances and tenants.
    pub fn grants_for(&self, proxy: &ProxyId) -> (list: Vec<(&InstanceId, &TenantId, u32)>)
        ensures
            grant_list(list@, proxy_grants(self@, proxy@)),
    {
        let mut list: Vec<(&InstanceId, &TenantId, u32)> = Vec::new();
        let ghost grants = proxy_grants(self@, proxy@);
        let n: usize = self.instances.len();
        let ghost names = self.instances.keys();
        let mut i: usize = 0;
        while i < n
            invariant
                n == names.len(),
                i <= n,
                names == self.instances.keys(),
                self@ == self.instances@,
                lists::<InstanceId, DesiredView>(names, self@),
                grants == proxy_grants(self@, proxy@),
                rising::<Slot>(grant_keys(list@)),
                forall|j: int|
                    0 <= j < list@.len() ==> grants.contains_key(#[trigger] grant_keys(list@)[j])
                        && list@[j].2 == grants[grant_keys(list@)[j]],
                forall|s: SlotName| #[trigger]
                    grant_keys(list@).contains(s) <==> grants.contains_key(s) && (exists|m: int|
                        0 <= m < i && names[m] == s.0),
            decreases n - i,
        {
            let instance = self.instances.key_at(i);
            let holders = self.instances.value_at(i).holders();
            let ghost hkeys = holder_keys(holders@);
            let ghost granted = self@[names[i as int]].granted;
            let ghost before = list@;
            let mut k: usize = 0;
            while k < holders.len()
                invariant
                    n == names.len(),
                    i < n,
                    names == self.instances.keys(),
                    lists::<InstanceId, DesiredView>(names, self@),
                    grants == proxy_grants(self@, proxy@),
                    instance@ == names[i as int],
                    granted == self@[names[i as int]].granted,
                    holder_list(holders@, granted),
                    hkeys == holder_keys(holders@),
                    k <= holders@.len(),
                    before.len() <= list@.len(),
                    forall|s: SlotName| #[trigger]
                        grant_keys(before).contains(s) <==> grants.contains_key(s) && (exists|
                            m: int,
                        | 0 <= m < i && names[m] == s.0),
                    list@.subrange(0, before.len() as int) == before,
                    rising::<Slot>(grant_keys(list@)),
                    forall|j: int|
                        0 <= j < list@.len() ==> grants.contains_key(
                            #[trigger] grant_keys(list@)[j],
                        ) && list@[j].2 == grants[grant_keys(list@)[j]],
                    forall|j: int|
                        before.len() <= j < list@.len() ==> (#[trigger] grant_keys(list@)[j]).0
                            == instance@ && (exists|m: int|
                            0 <= m < k && #[trigger] hkeys[m] == (
                                grant_keys(list@)[j].1,
                                proxy@,
                            )),
                    forall|m: int|
                        0 <= m < k && (#[trigger] hkeys[m]).1 == proxy@ ==> grant_keys(
                            list@,
                        ).contains((instance@, hkeys[m].0)),
                decreases holders@.len() - k,
            {
                let (holder, slots) = &holders[k];
                assert(hkeys[k as int] == holder@);
                assert(granted.contains_key(hkeys[k as int]));
                if same_key(holder.proxy(), proxy) {
                    let ghost was = list@;
                    let ghost s = (instance@, holder@.0);
                    proof {
                        assert(holder@ == (holder@.0, proxy@));
                        assert(self@.contains_key(names[i as int]));
                        assert(grants.contains_key(s));
                    }
                    list.push((instance, holder.tenant(), *slots));
                    proof {
                        let keys = grant_keys(list@);
                        assert(keys =~= grant_keys(was).push(s));
                        assert forall|j: int| 0 <= j < was.len() implies Slot::before(#[trigger] keys[j], s) by {
                            assert(keys[j] == grant_keys(was)[j]);
                            if j < before.len() {
                                assert(was.subrange(0, before.len() as int)[j] == before[j]);
                                assert(grant_keys(before)[j] == keys[j]);
                                assert(grant_keys(before).contains(keys[j]));
                                let m = choose|m: int| 0 <= m < i && names[m] == keys[j].0;
                                assert(InstanceId::before(names[m], names[i as int]));
                            } else {
                                let m = choose|m: int|
                                    0 <= m < k && #[trigger] hkeys[m] == (keys[j].1, proxy@);
                                assert(Holder::before(hkeys[m], hkeys[k as int]));
                                ProxyId::irreflexive(proxy@);
                            }
                        }
                        assert(rising::<Slot>(keys)) by {
                            assert forall|a: int, b: int| 0 <= a < b < keys.len() implies Slot::before(#[trigger] keys[a], #[trigger] keys[b]) by {
                                if b < was.len() {
                                    let old_keys = grant_keys(was);
                                    assert(old_keys[a] == keys[a] && old_keys[b] == keys[b]);
                                    assert(Slot::before(
                                        old_keys[a],
                                        old_keys[b],
                                    ));
                                } else {
                                    assert(keys[b] == s);
                                    assert(Slot::before(keys[a], s));
                                }
                            }
                        }
                        assert(list@.subrange(0, before.len() as int) =~= before);
                        assert forall|j: int| 0 <= j < list@.len() implies grants.contains_key(
                            #[trigger] keys[j],
                        ) && list@[j].2 == grants[keys[j]] by {
                            if j < was.len() {
                                assert(grant_keys(was)[j] == keys[j]);
                            }
                        }
                        assert forall|j: int| before.len() <= j < list@.len() implies (
                        #[trigger] keys[j]).0 == instance@ && (exists|m: int|
                            0 <= m < k + 1 && #[trigger] hkeys[m] == (keys[j].1, proxy@)) by {
                            if j < was.len() {
                                assert(grant_keys(was)[j] == keys[j]);
                            } else {
                                assert(hkeys[k as int] == (keys[j].1, proxy@));
                            }
                        }
                        assert forall|m: int|
                            0 <= m < k + 1 && (#[trigger] hkeys[m]).1 == proxy@ implies keys.contains(
                        (instance@, hkeys[m].0)) by {
                            if m < k {
                                let q = (instance@, hkeys[m].0);
                                assert(grant_keys(was).contains(q));
                                let j = choose|j: int|
                                    0 <= j < grant_keys(was).len() && grant_keys(was)[j] == q;
                                assert(keys[j] == q);
                            } else {
                                assert(keys[was.len() as int] == s);
                            }
                        }
                    }
                }
                k += 1;
            }
            proof {
                let keys = grant_keys(list@);
                assert forall|s: SlotName| #[trigger]
                    keys.contains(s) <==> grants.contains_key(s) && (exists|m: int|
                        0 <= m < i + 1 && names[m] == s.0) by {
                    if keys.contains(s) {
                        let j = choose|j: int| 0 <= j < keys.len() && keys[j] == s;
                        if j < before.len() {
                            assert(list@.subrange(0, before.len() as int)[j] == before[j]);
                            assert(grant_keys(before)[j] == s);
                            assert(grant_keys(before).contains(s));
                        } else {
                            assert(names[i as int] == s.0);
                        }
                    }
                    if grants.contains_key(s) && (exists|m: int| 0 <= m < i + 1 && names[m] == s.0) {
                        let m = choose|m: int| 0 <= m < i + 1 && names[m] == s.0;
                        if m < i {
                            assert(grant_keys(before).contains(s));
                            let j = choose|j: int|
                                0 <= j < grant_keys(before).len() && grant_keys(before)[j] == s;
                            assert(list@.subrange(0, before.len() as int)[j] == before[j]);
                            assert(keys[j] == s);
                        } else {
                            assert(granted.contains_key((s.1, proxy@)));
                            let q = choose|q: int|
                                0 <= q < hkeys.len() && hkeys[q] == (s.1, proxy@);
                            assert(hkeys[q].1 == proxy@);
                        }
                    }
                }
            }
            i += 1;
        }
        proof {
            let keys = grant_keys(list@);
            lemma_rising_distinct::<Slot>(keys);
            assert forall|s: SlotName| #[trigger] grants.contains_key(s) <==> keys.contains(s) by {
                if grants.contains_key(s) {
                    assert(self@.contains_key(s.0));
                    let m = choose|m: int| 0 <= m < names.len() && names[m] == s.0;
                    assert(0 <= m < i && names[m] == s.0);
                }
            }
            assert(keys.to_set() =~= grants.dom());
            keys.unique_seq_to_set();
            assert forall|j: int| 0 <= j < list@.len() implies (#[trigger] list@[j]).2
                == grants[(list@[j].0@, list@[j].1@)] by {
                assert(keys[j] == (list@[j].0@, list@[j].1@));
            }
        }
        list
    }
}

/// No instance ever holds more slots than its total budget, whatever entries
/// are applied in whatever order: a table keeps within its budgets when an
/// entry that fits is written over it.
pub proof fn law_writes_stay_within_budgets(table: TableView, entry: TableView)
    requires
        entry_fits(table),
        entry_fits(entry),
    ensures
        entry_fits(table.union_prefer_right(entry)),
        forall|i: Seq<char>|
            table_total(table.union_prefer_right(entry), i) <= #[trigger] table_budget(
                table.union_prefer_right(entry),
                i,
            ),
{
    let after = table.union_prefer_right(entry);
    assert forall|i: Seq<char>| #[trigger] after.contains_key(i) implies after[i].fits() by {
        if !entry.contains_key(i) {
            assert(table.contains_key(i));
        }
    }
}

/// Applying the same entry again moves nothing.
pub proof fn law_applying_again_moves_nothing(table: TableView, entry: TableView)
    ensures
        table.union_prefer_right(entry).union_prefer_right(entry) == table.union_prefer_right(
            entry,
        ),
{
    assert(table.union_prefer_right(entry).union_prefer_right(entry) =~= table.union_prefer_right(
        entry,
    ));
}

/// An entry replaces what the instances it names held, and leaves every other
/// instance as it was.
pub proof fn law_an_entry_replaces_what_it_names(table: TableView, entry: TableView, i: Seq<char>, h: HolderName)
    ensures
        entry.contains_key(i) ==> table_slots(table.union_prefer_right(entry), i, h)
            == entry[i].slots(h),
        !entry.contains_key(i) ==> table_slots(table.union_prefer_right(entry), i, h)
            == table_slots(table, i, h) && table_budget(table.union_prefer_right(entry), i)
            == table_budget(table, i),
{
}

/// A proxy reads exactly the grants it was given: for each instance and tenant
/// what the table grants it, and nothing of another proxy.
pub proof fn law_a_proxy_reads_its_own_grants(table: TableView, proxy: Seq<char>, s: SlotName)
    ensures
        proxy_grants(table, proxy).contains_key(s) ==> proxy_grants(table, proxy)[s]
            == table_slots(table, s.0, (s.1, proxy)),
        !proxy_grants(table, proxy).contains_key(s) ==> table_slots(table, s.0, (s.1, proxy)) == 0,
{
}

impl Default for AllocationTable {
    fn default() -> (table: Self)
        ensures
            table@ == Map::<Seq<char>, DesiredView>::empty(),
    {
        AllocationTable::new()
    }
}

impl Clone for AllocationTable {
    fn clone(&self) -> (copy: Self)
        ensures
            copy@ == self@,
    {
        proof {
            use_type_invariant(self);
        }
        AllocationTable { instances: self.instances.dup() }
    }
}

/// A grant replaces what its holder had, moves the slots granted together by the
/// difference, and leaves every other holder and the budget; one of no slots takes
/// the holder out.
pub proof fn law_a_grant_replaces_what_its_holder_had(
    desired: DesiredView,
    holder: HolderName,
    slots: u32,
    other: HolderName,
)
    requires
        desired.granted.dom().finite(),
    ensures
        ({
            let after = desired.with_grant(holder, slots);
            let had = if desired.granted.contains_key(holder) {
                desired.granted[holder]
            } else {
                0
            };
            &&& after.budget == desired.budget
            &&& after.slots(holder) == slots
            &&& after.granted.contains_key(holder) <==> slots > 0
            &&& other != holder ==> after.slots(other) == desired.slots(other)
            &&& after.total() + had == desired.total() + slots
        }),
{
    lemma_slot_insert(desired.granted, holder, slots);
    lemma_slot_remove(desired.granted, holder);
    if !desired.granted.contains_key(holder) {
        assert(desired.granted.remove(holder) =~= desired.granted);
    }
}

/// What a table says of an instance is what was last written of it, and nothing
/// where nothing was: its budget, what each holder is granted, and all of that
/// together, which fits where it is no more than the budget.
pub proof fn law_a_table_says_what_was_written(
    table: TableView,
    instance: Seq<char>,
    holder: HolderName,
)
    ensures
        !table.contains_key(instance) ==> table_budget(table, instance) == 0 && table_slots(
            table,
            instance,
            holder,
        ) == 0 && table_total(table, instance) == 0,
        table.contains_key(instance) ==> {
            &&& table_budget(table, instance) == table[instance].budget
            &&& table[instance].granted.contains_key(holder) ==> table_slots(
                table,
                instance,
                holder,
            ) == table[instance].granted[holder]
            &&& !table[instance].granted.contains_key(holder) ==> table_slots(
                table,
                instance,
                holder,
            ) == 0
            &&& table_total(table, instance) == slot_sum(table[instance].granted)
            &&& table[instance].fits() <==> slot_sum(table[instance].granted)
                <= table[instance].budget
        },
{
}

/// What an entry is rejected for is true of it: the instance would hold more slots
/// than its budget, both numbers are the entry's, and no instance before it is
/// over its budget; and an entry that leaves some instance over its budget is
/// never taken.
pub proof fn law_a_rejection_is_true_of_the_entry(
    entry: TableView,
    rejection: Option<Rejection>,
    i: Seq<char>,
)
    requires
        answered_with(entry, rejection),
    ensures
        entry.contains_key(i) && slot_sum(entry[i].granted) > entry[i].budget ==> rejection is Some,
        rejection matches Some(r) ==> {
            &&& entry.contains_key(r.instance)
            &&& r.budget == entry[r.instance].budget
            &&& slot_sum(entry[r.instance].granted) > r.budget
            &&& slot_sum(entry[r.instance].granted) <= u64::MAX ==> r.granted == slot_sum(
                entry[r.instance].granted,
            )
            &&& entry.contains_key(i) && InstanceId::before(i, r.instance) ==> slot_sum(
                entry[i].granted,
            ) <= entry[i].budget
        },
{
}

/// Places are ordered by what stands first in them: slots by the instance and
/// only then by the tenant, holders by the tenant and only then by the proxy, and
/// tenants by the user and only then by the database.
pub proof fn law_the_first_part_orders(a: SlotName, b: SlotName, g: HolderName, h: HolderName)
    ensures
        <InstanceId as Key>::before(a.0, b.0) ==> <Slot as Key>::before(a, b),
        a.0 == b.0 ==> (<Slot as Key>::before(a, b) <==> <TenantId as Key>::before(a.1, b.1)),
        <TenantId as Key>::before(g.0, h.0) ==> <Holder as Key>::before(g, h),
        g.0 == h.0 ==> (<Holder as Key>::before(g, h) <==> <ProxyId as Key>::before(g.1, h.1)),
        <String as Key>::before(a.1.0, b.1.0) ==> <TenantId as Key>::before(a.1, b.1),
        a.1.0 == b.1.0 ==> (<TenantId as Key>::before(a.1, b.1) <==> <String as Key>::before(
            a.1.1,
            b.1.1,
        )),
        <InstanceId as Key>::before(a.0, b.0) <==> <String as Key>::before(a.0, b.0),
{
    <String as Key>::irreflexive(a.0);
    <String as Key>::irreflexive(a.1.0);
    <String as Key>::irreflexive(g.0.0);
    <TenantId as Key>::irreflexive(g.0);
    <String as Key>::irreflexive(a.1.1);
}

} // verus!
