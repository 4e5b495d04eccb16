//! A small role-playing character: revival rules and spell casting.
use vstd::prelude::*;

verus! {

pub struct Player {
    pub health: u32,
    pub mana: Option<u32>,
    pub level: u32,
}

impl Player {
    /// A dead player (health 0) revives with 100 health and, from level 10
    /// on, a fresh 100-point mana pool; below level 10 the pool is gone. A
    /// living player is left alone.
    pub fn revive(&self) -> (r: Option<Player>)
        ensures
            self.health == 0 && self.level >= 10 ==> r == Some((Player {
                health: 100u32,
                mana: Some(100u32),
                level: self.level,
            })),
            self.health == 0 && self.level < 10 ==> r == Some((Player {
                health: 100u32,
                mana: None,
                level: self.level,
            })),
            self.health != 0 ==> r is None,
    {
        match self.health {
            0 => match self.level >= 10 {
                true => Some(Player { health: 100, mana: Some(100), level: self.level }),
                _ => Some(Player { health: 100, mana: None, level: self.level }),
            },
            _ => None,
        }
    }

    /// Without a mana pool the spell misfires and its cost is taken from
    /// health instead, to a floor of zero. With enough mana the cost is paid
    /// and the spell deals twice its cost in damage; with too little mana
    /// nothing happens.
    pub fn cast_spell(&mut self, mana_cost: u32) -> (damage: u32)
        requires
            (match old(self).mana {
                Some(m) => m > mana_cost ==> mana_cost <= u32::MAX / 2,
                None => true,
            }),
        ensures
            final(self).level == old(self).level,
            (match old(self).mana {
                None => {
                    &&& final(self).mana is None
                    &&& damage == 0
                    &&& final(self).health == if mana_cost > old(self).health {
                        0u32
                    } else {
                        (old(self).health - mana_cost) as u32
                    }
                },
                Some(m) => {
                    &&& final(self).health == old(self).health
                    &&& if m > mana_cost {
                        final(self).mana == Some((m - mana_cost) as u32) && damage == 2
                            * mana_cost
                    } else {
                        final(self).mana == Some(m) && damage == 0
                    }
                },
            }),
    {
        match self.mana {
            None => {
                if mana_cost > self.health {
                    self.health = 0;
                } else {
                    self.health = self.health - mana_cost;
                }
                0
            },
            Some(mana) => {
                if mana > mana_cost {
                    self.mana = Some(mana - mana_cost);
                    mana_cost * 2
                } else {
                    0
                }
            },
        }
    }
}

} // verus!
