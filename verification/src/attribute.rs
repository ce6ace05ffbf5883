use vstd::prelude::*;
use std::marker::PhantomData;
use crate::named::NameMap;
use crate::resource::ResourceId;

verus! {

/// A vertex attribute: a flat list of values read in items of `item_size` values each. The
/// buffer that a renderer uploads it into is kept by the renderer, not here.
pub struct Attribute<T> {
    /// Number of values per item.
    pub item_size: u8,
    /// Number of whole items: `data.len() / item_size`.
    pub count: usize,
    pub data: Vec<T>,
    /// The data changed since it was last uploaded.
    pub need_update: bool,
    pub _marker: PhantomData<T>,
}

/// An attribute of `usize` values, as used for vertex indices.
pub type AttributeUsize = Attribute<usize>;

impl<T: Copy + Clone> Attribute<T> {
    /// An attribute over `data`, read in items of `item_size` values, marked for upload.
    pub fn new(item_size: u8, data: Vec<T>) -> (attr: Self)
        requires
            item_size > 0,
        ensures
            attr.item_size == item_size,
            attr.count == data@.len() / (item_size as nat),
            attr.data@ == data@,
            attr.need_update,
    {
        let count = data.len() / (item_size as usize);
        Attribute { item_size, count, data, need_update: true, _marker: PhantomData }
    }

    /// The number of whole items.
    pub fn get_count(&self) -> (n: usize)
        ensures
            n == self.count,
    {
        self.count
    }

    /// The values of the attribute.
    pub fn borrow_data(&self) -> (data: &Vec<T>)
        ensures
            data@ == self.data@,
    {
        &self.data
    }
}

/// A geometry: named vertex attributes holding values of type `T`, and an optional index
/// attribute, all as handles into resource pools.
pub struct Geometry<T> {
    attributes: NameMap<ResourceId<Attribute<T>>>,
    index: Option<ResourceId<AttributeUsize>>,
}

impl<T> Geometry<T> {
    /// No two attributes share a name.
    pub closed spec fn wf(&self) -> bool {
        self.attributes.wf()
    }

    /// The attribute handle stored under each name.
    pub closed spec fn attribute_map(&self) -> Map<Seq<char>, ResourceId<Attribute<T>>> {
        self.attributes@
    }

    /// The index attribute handle, if set.
    pub closed spec fn index_handle(&self) -> Option<ResourceId<AttributeUsize>> {
        self.index
    }

    /// A geometry without attributes or index.
    pub fn new() -> (g: Self)
        ensures
            g.wf(),
            g.attribute_map() == Map::<Seq<char>, ResourceId<Attribute<T>>>::empty(),
            g.index_handle() is None,
    {
        Geometry { attributes: NameMap::new(), index: None }
    }

    /// Stores the attribute handle under `key`, replacing the one stored there before.
    pub fn set_attribute(&mut self, key: &str, attribute: ResourceId<Attribute<T>>) -> (g: &mut Self)
        requires
            old(self).wf(),
        ensures
            g.wf(),
            g.attribute_map() == old(self).attribute_map().insert(key@, attribute),
            g.index_handle() == old(self).index_handle(),
            *final(self) == *final(g),
    {
        self.attributes.insert(String::from_str(key), attribute);
        self
    }

    /// The attribute handle stored under `key`, if any.
    pub fn borrow_attribute(&self, key: &str) -> (a: Option<&ResourceId<Attribute<T>>>)
        requires
            self.wf(),
        ensures
            match a {
                Some(h) => self.attribute_map().contains_key(key@) && *h == self.attribute_map()[key@],
                None => !self.attribute_map().contains_key(key@),
            },
    {
        self.attributes.get(&String::from_str(key))
    }

    /// Sets the index attribute.
    pub fn set_index(&mut self, index: ResourceId<AttributeUsize>) -> (g: &mut Self)
        ensures
            g.index_handle() == Some(index),
            g.attribute_map() == old(self).attribute_map(),
            g.wf() == old(self).wf(),
            *final(self) == *final(g),
    {
        self.index = Some(index);
        self
    }

    /// Removes the index attribute.
    pub fn remove_index(&mut self) -> (g: &mut Self)
        ensures
            g.index_handle() is None,
            g.attribute_map() == old(self).attribute_map(),
            g.wf() == old(self).wf(),
            *final(self) == *final(g),
    {
        self.index = None;
        self
    }

    /// The index attribute handle, if set.
    pub fn borrow_index(&self) -> (i: Option<&ResourceId<AttributeUsize>>)
        ensures
            match i {
                Some(h) => self.index_handle() == Some(*h),
                None => self.index_handle() is None,
            },
    {
        self.index.as_ref()
    }
}

} // verus!
