//! The filter settings that users build up: whether the time filters give
//! the ranges to keep or to leave out, the named time and sample log
//! filters, and an amplitude setting.
//!
//! A filter's bounds and the amplitude are kept as whatever type the caller
//! gives (seconds as floating-point numbers, for the Python interface).
use vstd::prelude::*;

verus! {

/// Whether the time filters give ranges to keep or ranges to leave out.
#[derive(Clone, Copy, PartialEq, Eq, Structural)]
pub enum FilterType {
    Include,
    Exclude,
}

/// A named filter over the range `bounds` (its start and end).
#[derive(Clone)]
pub struct Filter<T> {
    pub name: String,
    pub bounds: T,
}

/// Why a change to the filters was refused.
#[derive(Clone, Copy, PartialEq, Eq, Structural, Debug)]
pub enum FilterError {
    /// A time filter of that name exists already.
    NameExists,
    /// No time filter has that name.
    NoSuchTimeFilter,
    /// No filter that `remove_log_filter` searches has that name.
    NoSuchLogFilter,
    /// The time filter type name is neither of the two known names.
    UnknownTimeType,
}

/// What `str::to_lowercase` gives for a string.
pub uninterp spec fn lowercase(s: Seq<char>) -> Seq<char>;

/// `str::to_lowercase` (reached through `String`'s `Deref`): the string with
/// every character replaced by its Unicode lower-case mapping, which depends
/// on the string alone. The result is named `lowercase`; the mapping itself
/// is left unstated.
#[verifier::external_body]
fn to_lowercase(s: &String) -> (r: String)
    ensures
        r@ == lowercase(s@),
{
    s.to_lowercase()
}

/// The time filter type that a lower-case type name stands for, if any.
pub open spec fn type_named(lower: Seq<char>) -> Option<FilterType> {
    if lower == "include"@ {
        Some(FilterType::Include)
    } else if lower == "exclude"@ {
        Some(FilterType::Exclude)
    } else {
        None
    }
}

/// The time filter type that a lower-case type name stands for, if any.
pub fn filter_type_of(lower: &String) -> (r: Option<FilterType>)
    ensures
        r == type_named(lower@),
{
    let keep_name = "include".to_owned();
    let drop_name = "exclude".to_owned();
    if *lower == keep_name {
        Some(FilterType::Include)
    } else if *lower == drop_name {
        Some(FilterType::Exclude)
    } else {
        None
    }
}

/// The time filter type that a type name stands for, whatever its case.
pub fn parse_filter_type(name: &String) -> (r: Option<FilterType>)
    ensures
        r == type_named(lowercase(name@)),
{
    filter_type_of(&to_lowercase(name))
}

/// The names of a list of filters, in order.
pub open spec fn names<T>(filters: Seq<Filter<T>>) -> Seq<Seq<char>> {
    filters.map_values(|f: Filter<T>| f.name@)
}

/// No two filters of the list have the same name.
pub open spec fn names_unique<T>(filters: Seq<Filter<T>>) -> bool {
    forall|i: int, j: int| 0 <= i < j < filters.len() ==> filters[i].name@ != filters[j].name@
}

/// The first position of a filter named `name`, if there is one.
pub open spec fn first_named<T>(filters: Seq<Filter<T>>, name: Seq<char>) -> Option<int> {
    if exists|i: int| 0 <= i < filters.len() && filters[i].name@ == name {
        Some(choose|i: int| 0 <= i < filters.len() && filters[i].name@ == name
            && forall|j: int| 0 <= j < i ==> filters[j].name@ != name)
    } else {
        None
    }
}

/// The list after the filter at `i` is removed by `Vec::swap_remove`: the
/// last filter takes its place.
pub open spec fn swap_removed<T>(filters: Seq<Filter<T>>, i: int) -> Seq<Filter<T>> {
    filters.update(i, filters.last()).drop_last()
}

/// Finds the first filter named `name`.
fn position_of<T>(filters: &Vec<Filter<T>>, name: &String) -> (r: Option<usize>)
    ensures
        match r {
            Some(i) => {
                &&& i < filters.len()
                &&& filters@[i as int].name@ == name@
                &&& forall|j: int| 0 <= j < i ==> filters@[j].name@ != name@
            },
            None => forall|j: int| 0 <= j < filters.len() ==> filters@[j].name@ != name@,
        },
        r matches Some(i) ==> first_named(filters@, name@) == Some(i as int),
        r is None ==> first_named(filters@, name@) is None,
{
    let mut i: usize = 0;
    while i < filters.len()
        invariant
            i <= filters.len(),
            forall|j: int| 0 <= j < i ==> filters@[j].name@ != name@,
        decreases filters.len() - i,
    {
        if filters[i].name == *name {
            proof {
                assert(0 <= i < filters@.len() && filters@[i as int].name@ == name@
                    && forall|j: int| 0 <= j < i ==> filters@[j].name@ != name@);
            }
            return Some(i);
        }
        i = i + 1;
    }
    None
}

/// The user-facing filter settings.
#[derive(Clone)]
pub struct Filters<T, A> {
    time_filter_type: FilterType,
    time_filters: Vec<Filter<T>>,
    sample_log_filters: Vec<Filter<T>>,
    amplitudes: A,
}

impl<T, A> Filters<T, A> {
    /// Whether the time filters give ranges to keep.
    pub closed spec fn filter_type(&self) -> FilterType {
        self.time_filter_type
    }

    /// The time filters, in order.
    pub closed spec fn time(&self) -> Seq<Filter<T>> {
        self.time_filters@
    }

    /// The sample log filters, in order.
    pub closed spec fn logs(&self) -> Seq<Filter<T>> {
        self.sample_log_filters@
    }

    /// The amplitude setting.
    pub closed spec fn amplitude(&self) -> A {
        self.amplitudes
    }

    /// No filters, time filters that give ranges to keep, and the given
    /// amplitude setting.
    pub fn new(amplitudes: A) -> (f: Self)
        ensures
            f.filter_type() == FilterType::Include,
            f.time() == Seq::<Filter<T>>::empty(),
            f.logs() == Seq::<Filter<T>>::empty(),
            f.amplitude() == amplitudes,
    {
        Filters {
            time_filter_type: FilterType::Include,
            time_filters: Vec::new(),
            sample_log_filters: Vec::new(),
            amplitudes,
        }
    }

    /// The time filters.
    pub fn time_filters(&self) -> (r: &Vec<Filter<T>>)
        ensures
            r@ == self.time(),
    {
        &self.time_filters
    }

    /// The sample log filters.
    pub fn sample_log_filters(&self) -> (r: &Vec<Filter<T>>)
        ensures
            r@ == self.logs(),
    {
        &self.sample_log_filters
    }

    /// The amplitude setting.
    pub fn amplitudes(&self) -> (r: &A)
        ensures
            *r == self.amplitude(),
    {
        &self.amplitudes
    }

    /// Return whether the time filters are include or exclude.
    pub fn is_include(&self) -> (r: bool)
        ensures
            r == (self.filter_type() == FilterType::Include),
    {
        match self.time_filter_type {
            FilterType::Include => true,
            FilterType::Exclude => false,
        }
    }

    /// Set the time filter type from its name, whatever its case; an
    /// unknown name leaves the filters as they are.
    pub fn set_time_type(&mut self, filter_type: String) -> (r: Result<(), FilterError>)
        ensures
            match type_named(lowercase(filter_type@)) {
                Some(t) => r is Ok && final(self).filter_type() == t,
                None => r == Err::<(), FilterError>(FilterError::UnknownTimeType) && final(self).filter_type()
                    == old(self).filter_type(),
            },
            final(self).time() == old(self).time(),
            final(self).logs() == old(self).logs(),
            final(self).amplitude() == old(self).amplitude(),
    {
        match parse_filter_type(&filter_type) {
            Some(t) => {
                self.time_filter_type = t;
                Ok(())
            },
            None => Err(FilterError::UnknownTimeType),
        }
    }

    /// Add a time filter, unless a time filter of that name exists already.
    pub fn add_time_filter(&mut self, name: String, bounds: T) -> (r: Result<(), FilterError>)
        ensures
            r is Err <==> names(old(self).time()).contains(name@),
            r is Err ==> r == Err::<(), FilterError>(FilterError::NameExists) && *final(self) == *old(self),
            r is Ok ==> final(self).time() == old(self).time().push(Filter { name, bounds }),
            final(self).filter_type() == old(self).filter_type(),
            final(self).logs() == old(self).logs(),
            final(self).amplitude() == old(self).amplitude(),
            names_unique(old(self).time()) ==> names_unique(final(self).time()),
    {
        // check name isn't already in use
        match position_of(&self.time_filters, &name) {
            Some(i) => {
                proof {
                    assert(names(old(self).time())[i as int] == name@);
                }
                Err(FilterError::NameExists)
            },
            None => {
                proof {
                    assert forall|k: int| 0 <= k < names(old(self).time()).len() implies names(old(self).time())[k] != name@ by {
                        assert(old(self).time()[k].name@ != name@);
                    }
                }
                self.time_filters.push(Filter { name, bounds });
                Ok(())
            },
        }
    }

    /// Remove the first time filter of the given name; the last time filter
    /// takes its place.
    pub fn remove_time_filter(&mut self, name: &String) -> (r: Result<(), FilterError>)
        ensures
            r is Err <==> !names(old(self).time()).contains(name@),
            r is Err ==> r == Err::<(), FilterError>(FilterError::NoSuchTimeFilter) && *final(self) == *old(self),
            r is Ok ==> (first_named(old(self).time(), name@) matches Some(i)
                && final(self).time() == swap_removed(old(self).time(), i)),
            final(self).filter_type() == old(self).filter_type(),
            final(self).logs() == old(self).logs(),
            final(self).amplitude() == old(self).amplitude(),
            names_unique(old(self).time()) ==> names_unique(final(self).time()),
            names_unique(old(self).time()) ==> !names(final(self).time()).contains(name@),
    {
        match position_of(&self.time_filters, name) {
            Some(i) => {
                proof {
                    assert(names(old(self).time())[i as int] == name@);
                }
                self.time_filters.swap_remove(i);
                proof {
                    let (o, n) = (old(self).time(), self.time());
                    if names_unique(o) {
                        assert forall|a: int, b: int| 0 <= a < b < n.len() implies n[a].name@ != n[b].name@ by {
                            if a == i {
                                assert(n[a] == o[o.len() - 1]);
                            }
                        }
                        assert forall|k: int| 0 <= k < names(n).len() implies names(n)[k] != name@ by {
                            if k == i {
                                assert(n[k] == o[o.len() - 1]);
                                assert(o[i as int].name@ == name@);
                            } else {
                                assert(n[k] == o[k]);
                            }
                        }
                    }
                }
                Ok(())
            },
            None => {
                proof {
                    assert forall|k: int| 0 <= k < names(old(self).time()).len() implies names(old(self).time())[k] != name@ by {
                        assert(old(self).time()[k].name@ != name@);
                    }
                }
                Err(FilterError::NoSuchTimeFilter)
            },
        }
    }

    /// Add a log filter.
    pub fn add_log_filter(&mut self, name: String, bounds: T) -> (r: Result<(), FilterError>)
        ensures
            r is Ok,
            final(self).logs() == old(self).logs().push(Filter { name, bounds }),
            final(self).filter_type() == old(self).filter_type(),
            final(self).time() == old(self).time(),
            final(self).amplitude() == old(self).amplitude(),
    {
        self.sample_log_filters.push(Filter { name, bounds });
        Ok(())
    }

    /// Remove a log filter by name.
    ///
    /// The name is looked up among the time filters, and the first time
    /// filter of that name is the one removed; the sample log filters are
    /// left as they are.
    pub fn remove_log_filter(&mut self, name: &String) -> (r: Result<(), FilterError>)
        ensures
            r is Err <==> !names(old(self).time()).contains(name@),
            r is Err ==> r == Err::<(), FilterError>(FilterError::NoSuchLogFilter) && *final(self) == *old(self),
            r is Ok ==> (first_named(old(self).time(), name@) matches Some(i)
                && final(self).time() == swap_removed(old(self).time(), i)),
            final(self).filter_type() == old(self).filter_type(),
            final(self).logs() == old(self).logs(),
            final(self).amplitude() == old(self).amplitude(),
    {
        match position_of(&self.time_filters, name) {
            Some(i) => {
                proof {
                    assert(names(old(self).time())[i as int] == name@);
                }
                self.time_filters.swap_remove(i);
                Ok(())
            },
            None => {
                proof {
                    assert forall|k: int| 0 <= k < names(old(self).time()).len() implies names(old(self).time())[k] != name@ by {
                        assert(old(self).time()[k].name@ != name@);
                    }
                }
                Err(FilterError::NoSuchLogFilter)
            },
        }
    }

    /// Set the amplitude.
    pub fn set_amp(&mut self, amp: A) -> (r: Result<(), FilterError>)
        ensures
            r is Ok,
            final(self).amplitude() == amp,
            final(self).filter_type() == old(self).filter_type(),
            final(self).time() == old(self).time(),
            final(self).logs() == old(self).logs(),
    {
        self.amplitudes = amp;
        Ok(())
    }
}

} // verus!
