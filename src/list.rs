pub mod linked_list;
